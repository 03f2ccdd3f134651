//! What the HTTP API decides: which scenarios are valid, what an edit would change, and
//! which branches may be published.

use crate::engine::{runnable, simulate, simulation};
use crate::evidence::{
    AdvertisedRoute, AdvertisedRouteView, BestEntry, BestEntryView, RunResult, RunResultView,
    RunStatus, StepKind, StepView,
};
use crate::fingerprint::{
    canonical, canonical_string, fingerprint, fingerprint_and_id, ENGINE_VERSION,
};
use crate::json::{has_member, has_size, json_text, Json, JsonView, ToJson};
use crate::model::{
    Announcement, AnnouncementView, EditSet, EditSetView, EventSpec, EventSpecView, NodeId,
    NodeSpec, Prefix, Route, RouteView, ScenarioInput, ScenarioInputView, Session,
    SessionId, SessionView,
};
use crate::ordmap::{add_keys, in_order, OrdMap};
use crate::rib::lookup;
use crate::scenario::{branch, branched, noted, EditPreview, EditPreviewView};
use crate::signature::{lemma_apart, lemma_within_ends, lemma_within_self, within};
use crate::store::{ScenarioRow, ScenarioRowView};
use crate::text::{
    decimal, decimals, i64_text, join, join_strs, strs_contain, u32_texts, usize_text,
    Chars,
};
use crate::value::{push_to, Value};
use vstd::prelude::*;

verus! {

// ---------- impact ----------

/// A difference for a node and a prefix, in words.
#[derive(Clone, Debug, PartialEq, Eq)]
pub struct PathDiff {
    pub node: NodeId,
    pub prefix: Prefix,
    pub before: Option<String>,
    pub after: Option<String>,
}

/// What a [`PathDiff`] holds.
#[verifier::ext_equal]
pub struct PathDiffView {
    pub node: Chars,
    pub prefix: Chars,
    pub before: Option<Chars>,
    pub after: Option<Chars>,
}

impl View for PathDiff {
    type V = PathDiffView;

    open spec fn view(&self) -> PathDiffView {
        PathDiffView {
            node: self.node.deep_view(),
            prefix: self.prefix.deep_view(),
            before: self.before.deep_view(),
            after: self.after.deep_view(),
        }
    }
}

impl DeepView for PathDiff {
    type V = PathDiffView;

    open spec fn deep_view(&self) -> PathDiffView {
        self@
    }
}

impl Value for PathDiff {
    fn copy(&self) -> (r: Self) {
        PathDiff {
            node: self.node.copy(),
            prefix: self.prefix.copy(),
            before: self.before.copy(),
            after: self.after.copy(),
        }
    }

    fn same(&self, other: &Self) -> (r: bool) {
        self.node.same(&other.node)
            && self.prefix.same(&other.prefix)
            && self.before.same(&other.before)
            && self.after.same(&other.after)
    }
}

/// A difference in what stands advertised on a session.
#[derive(Clone, Debug, PartialEq, Eq)]
pub struct PublicationDiff {
    pub session: SessionId,
    pub from: NodeId,
    pub to: NodeId,
    pub prefix: Prefix,
    pub change: String,
    pub before: Option<String>,
    pub after: Option<String>,
}

/// What a [`PublicationDiff`] holds.
#[verifier::ext_equal]
pub struct PublicationDiffView {
    pub session: Chars,
    pub from: Chars,
    pub to: Chars,
    pub prefix: Chars,
    pub change: Chars,
    pub before: Option<Chars>,
    pub after: Option<Chars>,
}

impl View for PublicationDiff {
    type V = PublicationDiffView;

    open spec fn view(&self) -> PublicationDiffView {
        PublicationDiffView {
            session: self.session.deep_view(),
            from: self.from.deep_view(),
            to: self.to.deep_view(),
            prefix: self.prefix.deep_view(),
            change: self.change.deep_view(),
            before: self.before.deep_view(),
            after: self.after.deep_view(),
        }
    }
}

impl DeepView for PublicationDiff {
    type V = PublicationDiffView;

    open spec fn deep_view(&self) -> PublicationDiffView {
        self@
    }
}

impl Value for PublicationDiff {
    fn copy(&self) -> (r: Self) {
        PublicationDiff {
            session: self.session.copy(),
            from: self.from.copy(),
            to: self.to.copy(),
            prefix: self.prefix.copy(),
            change: self.change.copy(),
            before: self.before.copy(),
            after: self.after.copy(),
        }
    }

    fn same(&self, other: &Self) -> (r: bool) {
        self.session.same(&other.session)
            && self.from.same(&other.from)
            && self.to.same(&other.to)
            && self.prefix.same(&other.prefix)
            && self.change.same(&other.change)
            && self.before.same(&other.before)
            && self.after.same(&other.after)
    }
}

/// Impact analysis: nodes, prefixes and publication differences between two runs.
#[derive(Clone, Debug, PartialEq, Eq)]
pub struct Impact {
    pub affected_nodes: Vec<NodeId>,
    pub affected_prefixes: Vec<Prefix>,
    pub best_path_diffs: Vec<PathDiff>,
    pub publication_diffs: Vec<PublicationDiff>,
    /// When the final state matches but the convergence trajectory differs (restart,
    /// reconvergence), the differing intermediate node and prefix pairs are still surfaced,
    /// so that the blast radius is visible before committing.
    pub intermediate_diffs: Vec<PathDiff>,
    pub trace_changed: bool,
}

/// What a [`Impact`] holds.
#[verifier::ext_equal]
pub struct ImpactView {
    pub affected_nodes: Seq<Chars>,
    pub affected_prefixes: Seq<Chars>,
    pub best_path_diffs: Seq<PathDiffView>,
    pub publication_diffs: Seq<PublicationDiffView>,
    pub intermediate_diffs: Seq<PathDiffView>,
    pub trace_changed: bool,
}

impl View for Impact {
    type V = ImpactView;

    open spec fn view(&self) -> ImpactView {
        ImpactView {
            affected_nodes: self.affected_nodes.deep_view(),
            affected_prefixes: self.affected_prefixes.deep_view(),
            best_path_diffs: self.best_path_diffs.deep_view(),
            publication_diffs: self.publication_diffs.deep_view(),
            intermediate_diffs: self.intermediate_diffs.deep_view(),
            trace_changed: self.trace_changed,
        }
    }
}

impl DeepView for Impact {
    type V = ImpactView;

    open spec fn deep_view(&self) -> ImpactView {
        self@
    }
}

impl Value for Impact {
    fn copy(&self) -> (r: Self) {
        Impact {
            affected_nodes: self.affected_nodes.copy(),
            affected_prefixes: self.affected_prefixes.copy(),
            best_path_diffs: self.best_path_diffs.copy(),
            publication_diffs: self.publication_diffs.copy(),
            intermediate_diffs: self.intermediate_diffs.copy(),
            trace_changed: self.trace_changed,
        }
    }

    fn same(&self, other: &Self) -> (r: bool) {
        self.affected_nodes.same(&other.affected_nodes)
            && self.affected_prefixes.same(&other.affected_prefixes)
            && self.best_path_diffs.same(&other.best_path_diffs)
            && self.publication_diffs.same(&other.publication_diffs)
            && self.intermediate_diffs.same(&other.intermediate_diffs)
            && self.trace_changed == other.trace_changed
    }
}

/// A route in words.
pub open spec fn route_label(r: RouteView) -> Chars {
    "[lp="@ + decimal(r.local_pref as int) + ", med="@ + decimal(r.med_or_zero() as int)
        + ", path="@ + join(decimals(r.as_path), " "@) + ", comm="@ + join(r.communities, ","@)
        + "]"@
}

/// A route in words, if there is one.
pub open spec fn path_text(r: Option<RouteView>) -> Option<Chars> {
    match r {
        Some(r) => Some(route_label(r)),
        None => None,
    }
}

/// Says a route in words.
pub fn path_label(r: Option<&Route>) -> (s: Option<String>)
    ensures
        s.deep_view() == path_text(
            match r {
                Some(route) => Some(route@),
                None => None,
            },
        ),
{
    match r {
        Some(r) => {
            assert(r.as_path.deep_view() =~= r.as_path@);
            Some(
                "[lp=".to_owned().concat(i64_text(r.local_pref).as_str()).concat(", med=").concat(
                    i64_text(r.med_or_zero()).as_str(),
                ).concat(", path=").concat(
                    join_strs(&u32_texts(&r.as_path), " ").as_str(),
                ).concat(", comm=").concat(join_strs(&r.communities, ",").as_str()).concat("]"),
            )
        },
        None => None,
    }
}

/// The best routes of a result by node and prefix.
pub open spec fn best_by_key(best: Seq<BestEntryView>) -> Map<(Chars, Chars), RouteView>
    decreases best.len(),
{
    if best.len() == 0 {
        Map::empty()
    } else {
        best_by_key(best.drop_last()).insert(
            (best.last().node, best.last().prefix),
            best.last().route,
        )
    }
}

/// The advertised routes of a result by session and prefix.
pub open spec fn advertised_by_key(
    advertised: Seq<AdvertisedRouteView>,
) -> Map<(Chars, Chars), AdvertisedRouteView>
    decreases advertised.len(),
{
    if advertised.len() == 0 {
        Map::empty()
    } else {
        advertised_by_key(advertised.drop_last()).insert(
            (advertised.last().session, advertised.last().prefix),
            advertised.last(),
        )
    }
}

/// The keys of two maps, in order.
pub open spec fn keys_of_both<A, B>(
    a: Map<(Chars, Chars), A>,
    b: Map<(Chars, Chars), B>,
) -> Seq<(Chars, Chars)> {
    in_order::<(String, String)>(a.dom().union(b.dom()))
}

/// The best-path differences between two results.
pub open spec fn path_diffs(
    a: Map<(Chars, Chars), RouteView>,
    b: Map<(Chars, Chars), RouteView>,
) -> Seq<PathDiffView> {
    keys_of_both(a, b).filter(|k: (Chars, Chars)| lookup(a, k) != lookup(b, k)).map_values(
        |k: (Chars, Chars)|
            PathDiffView {
                node: k.0,
                prefix: k.1,
                before: path_text(lookup(a, k)),
                after: path_text(lookup(b, k)),
            },
    )
}

/// The route of an advertisement, if there is one.
pub open spec fn route_of(a: Option<AdvertisedRouteView>) -> Option<RouteView> {
    match a {
        Some(x) => Some(x.route),
        None => None,
    }
}

/// The difference of what stands advertised on a session for a prefix.
pub open spec fn publication_diff(
    a: Map<(Chars, Chars), AdvertisedRouteView>,
    b: Map<(Chars, Chars), AdvertisedRouteView>,
    k: (Chars, Chars),
) -> PublicationDiffView {
    let shown = match lookup(b, k) {
        Some(x) => x,
        None => a[k],
    };
    PublicationDiffView {
        session: k.0,
        from: shown.from,
        to: shown.to,
        prefix: k.1,
        change: match (lookup(a, k), lookup(b, k)) {
            (Some(_), Some(_)) => "modified"@,
            (None, Some(_)) => "new"@,
            _ => "withdrawn"@,
        },
        before: path_text(route_of(lookup(a, k))),
        after: path_text(route_of(lookup(b, k))),
    }
}

/// The publication differences between two results.
pub open spec fn publication_diffs(
    a: Map<(Chars, Chars), AdvertisedRouteView>,
    b: Map<(Chars, Chars), AdvertisedRouteView>,
) -> Seq<PublicationDiffView> {
    keys_of_both(a, b).filter(
        |k: (Chars, Chars)| route_of(lookup(a, k)) != route_of(lookup(b, k)),
    ).map_values(|k: (Chars, Chars)| publication_diff(a, b, k))
}

/// One more in a count.
pub open spec fn bumped(
    counts: Map<(Chars, Chars), usize>,
    k: (Chars, Chars),
) -> Map<(Chars, Chars), usize> {
    counts.insert(k, more(count_of(counts, k)))
}

/// The count of a key; zero if it is not there.
pub open spec fn count_of(counts: Map<(Chars, Chars), usize>, k: (Chars, Chars)) -> usize {
    match lookup(counts, k) {
        Some(n) => n,
        None => 0,
    }
}

/// A count and one, at most the largest count.
pub open spec fn more(n: usize) -> usize {
    if n == usize::MAX {
        n
    } else {
        (n + 1) as usize
    }
}

/// One more for every prefix of a node.
pub open spec fn bumped_all(
    counts: Map<(Chars, Chars), usize>,
    node: Chars,
    prefixes: Seq<Chars>,
) -> Map<(Chars, Chars), usize>
    decreases prefixes.len(),
{
    if prefixes.len() == 0 {
        counts
    } else {
        bumped(bumped_all(counts, node, prefixes.drop_last()), (node, prefixes.last()))
    }
}

/// The prefixes for which a node has a best route.
pub open spec fn best_prefixes(best: Seq<BestEntryView>, node: Chars) -> Set<Chars>
    decreases best.len(),
{
    if best.len() == 0 {
        Set::empty()
    } else {
        let before = best_prefixes(best.drop_last(), node);
        if best.last().node == node {
            before.insert(best.last().prefix)
        } else {
            before
        }
    }
}

/// The convergence events per node and prefix that the node took part in. A restart names
/// no single prefix; it counts for every prefix for which the node ends with a best route.
pub open spec fn transitions(
    steps: Seq<StepView>,
    best: Seq<BestEntryView>,
) -> Map<(Chars, Chars), usize>
    decreases steps.len(),
{
    if steps.len() == 0 {
        Map::empty()
    } else {
        let step = steps.last();
        let before = transitions(steps.drop_last(), best);
        let direct = match step.prefix {
            Some(p) => bumped(before, (step.node, p)),
            None => before,
        };
        if step.kind == StepKind::Restart {
            bumped_all(
                direct,
                step.node,
                in_order::<String>(best_prefixes(best, step.node)),
            )
        } else {
            direct
        }
    }
}

/// The differences in how often nodes took part in the convergence of prefixes.
pub open spec fn transition_diffs(
    a: Map<(Chars, Chars), usize>,
    b: Map<(Chars, Chars), usize>,
) -> Seq<PathDiffView> {
    keys_of_both(a, b).filter(|k: (Chars, Chars)| count_of(a, k) != count_of(b, k)).map_values(
        |k: (Chars, Chars)|
            PathDiffView {
                node: k.0,
                prefix: k.1,
                before: Some(decimal(count_of(a, k) as int) + " convergence step(s)"@),
                after: Some(decimal(count_of(b, k) as int) + " convergence step(s)"@),
            },
    )
}

/// A list with the members of another that it does not have yet, in their order.
pub open spec fn all_noted(list: Seq<Chars>, others: Seq<Chars>) -> Seq<Chars>
    decreases others.len(),
{
    if others.len() == 0 {
        list
    } else {
        noted(all_noted(list, others.drop_last()), others.last())
    }
}

/// The impact of going from one result to another.
pub open spec fn impact_of(before: RunResultView, after: RunResultView) -> ImpactView {
    let paths = path_diffs(best_by_key(before.best), best_by_key(after.best));
    let publications = publication_diffs(
        advertised_by_key(before.advertised),
        advertised_by_key(after.advertised),
    );
    let passing = transition_diffs(
        transitions(before.steps, before.best),
        transitions(after.steps, after.best),
    );
    ImpactView {
        affected_nodes: all_noted(
            all_noted(
                all_noted(Seq::empty(), paths.map_values(|d: PathDiffView| d.node)),
                publications.map_values(|d: PublicationDiffView| d.from),
            ),
            passing.map_values(|d: PathDiffView| d.node),
        ),
        affected_prefixes: all_noted(
            all_noted(
                all_noted(Seq::empty(), paths.map_values(|d: PathDiffView| d.prefix)),
                publications.map_values(|d: PublicationDiffView| d.prefix),
            ),
            passing.map_values(|d: PathDiffView| d.prefix),
        ),
        best_path_diffs: paths,
        publication_diffs: publications,
        intermediate_diffs: passing,
        trace_changed: before.trace_fingerprint != after.trace_fingerprint,
    }
}

fn index_best(best: &Vec<BestEntry>) -> (r: OrdMap<(String, String), Route>)
    ensures
        r@ == best_by_key(best.deep_view()),
{
    let ghost all = best.deep_view();
    let mut out: OrdMap<(String, String), Route> = OrdMap::new();
    let mut i: usize = 0;
    while i < best.len()
        invariant
            i <= best@.len(),
            all == best.deep_view(),
            out@ == best_by_key(all.take(i as int)),
        decreases best.len() - i,
    {
        let b = &best[i];
        let key = (b.node.clone(), b.prefix.clone());
        proof {
            assert(key.deep_view() == (b.node@, b.prefix@));
            assert(all.take(i + 1).last() == b@);
            assert(all.take(i + 1).drop_last() =~= all.take(i as int));
        }
        out.insert(key, b.route.copy());
        i += 1;
    }
    assert(all.take(i as int) =~= all);
    out
}

fn index_advertised(advertised: &Vec<AdvertisedRoute>) -> (r: OrdMap<
    (String, String),
    AdvertisedRoute,
>)
    ensures
        r@ == advertised_by_key(advertised.deep_view()),
{
    let ghost all = advertised.deep_view();
    let mut out: OrdMap<(String, String), AdvertisedRoute> = OrdMap::new();
    let mut i: usize = 0;
    while i < advertised.len()
        invariant
            i <= advertised@.len(),
            all == advertised.deep_view(),
            out@ == advertised_by_key(all.take(i as int)),
        decreases advertised.len() - i,
    {
        let a = &advertised[i];
        let key = (a.session.clone(), a.prefix.clone());
        proof {
            assert(key.deep_view() == (a.session@, a.prefix@));
            assert(all.take(i + 1).last() == a@);
            assert(all.take(i + 1).drop_last() =~= all.take(i as int));
        }
        out.insert(key, a.copy());
        i += 1;
    }
    assert(all.take(i as int) =~= all);
    out
}

fn both_keys<A: DeepView, B: DeepView>(
    a: &OrdMap<(String, String), A>,
    b: &OrdMap<(String, String), B>,
) -> (r: OrdMap<(String, String), ()>)
    ensures
        in_order::<(String, String)>(r@.dom()) == keys_of_both(a@, b@),
{
    let mut keys: OrdMap<(String, String), ()> = OrdMap::new();
    add_keys(&mut keys, a);
    add_keys(&mut keys, b);
    assert(keys@.dom() =~= a@.dom().union(b@.dom()));
    keys
}

fn note(list: &mut Vec<String>, node: &String)
    ensures
        final(list).deep_view() == noted(old(list).deep_view(), node@),
{
    let ghost before = list.deep_view();
    if !strs_contain(list, node.as_str()) {
        list.push(node.clone());
        assert(list.deep_view() =~= before.push(node@));
    }
}

fn diff_paths(
    a: &OrdMap<(String, String), Route>,
    b: &OrdMap<(String, String), Route>,
) -> (r: Vec<PathDiff>)
    ensures
        r.deep_view() == path_diffs(a@, b@),
{
    let keys = both_keys(a, b);
    let ghost all = keys_of_both(a@, b@);
    let ghost wanted = |k: (Chars, Chars)| lookup(a@, k) != lookup(b@, k);
    let ghost make = |k: (Chars, Chars)|
        PathDiffView {
            node: k.0,
            prefix: k.1,
            before: path_text(lookup(a@, k)),
            after: path_text(lookup(b@, k)),
        };
    let mut out: Vec<PathDiff> = Vec::new();
    let n = keys.len();
    let mut i: usize = 0;
    assert(out.deep_view() =~= all.take(0).filter(wanted).map_values(make)) by {
        reveal(Seq::filter);
    }
    while i < n
        invariant
            i <= n,
            n == all.len(),
            all == in_order::<(String, String)>(keys@.dom()),
            wanted == (|k: (Chars, Chars)| lookup(a@, k) != lookup(b@, k)),
            make == (|k: (Chars, Chars)|
                PathDiffView {
                    node: k.0,
                    prefix: k.1,
                    before: path_text(lookup(a@, k)),
                    after: path_text(lookup(b@, k)),
                }),
            out.deep_view() == all.take(i as int).filter(wanted).map_values(make),
        decreases n - i,
    {
        let key = keys.key_at(i);
        let ghost k = key.deep_view();
        let ghost partial = out.deep_view();
        proof {
            assert(k == (key.0@, key.1@));
            assert(all.take(i + 1) =~= all.take(i as int).push(k));
            all.take(i as int).lemma_filter_push(k, wanted);
        }
        let ra = a.get(key);
        let rb = b.get(key);
        let same = match (ra, rb) {
            (Some(x), Some(y)) => x.same(y),
            (None, None) => true,
            _ => false,
        };
        if !same {
            let diff = PathDiff {
                node: key.0.clone(),
                prefix: key.1.clone(),
                before: path_label(ra),
                after: path_label(rb),
            };
            assert(diff@ =~= make(k));
            push_to(&mut out, diff);
            assert(all.take(i + 1).filter(wanted).map_values(make) =~= partial.push(make(k)));
        }
        i += 1;
    }
    assert(all.take(i as int) =~= all);
    out
}

fn diff_publications(
    a: &OrdMap<(String, String), AdvertisedRoute>,
    b: &OrdMap<(String, String), AdvertisedRoute>,
) -> (r: Vec<PublicationDiff>)
    ensures
        r.deep_view() == publication_diffs(a@, b@),
{
    let keys = both_keys(a, b);
    let ghost all = keys_of_both(a@, b@);
    let ghost wanted = |k: (Chars, Chars)| route_of(lookup(a@, k)) != route_of(lookup(b@, k));
    let ghost make = |k: (Chars, Chars)| publication_diff(a@, b@, k);
    let mut out: Vec<PublicationDiff> = Vec::new();
    let n = keys.len();
    let mut i: usize = 0;
    assert(out.deep_view() =~= all.take(0).filter(wanted).map_values(make)) by {
        reveal(Seq::filter);
    }
    while i < n
        invariant
            i <= n,
            n == all.len(),
            all == in_order::<(String, String)>(keys@.dom()),
            wanted == (|k: (Chars, Chars)|
                route_of(lookup(a@, k)) != route_of(lookup(b@, k))),
            make == (|k: (Chars, Chars)| publication_diff(a@, b@, k)),
            out.deep_view() == all.take(i as int).filter(wanted).map_values(make),
        decreases n - i,
    {
        let key = keys.key_at(i);
        let ghost k = key.deep_view();
        let ghost partial = out.deep_view();
        proof {
            assert(k == (key.0@, key.1@));
            assert(all.take(i + 1) =~= all.take(i as int).push(k));
            all.take(i as int).lemma_filter_push(k, wanted);
        }
        let diff: Option<PublicationDiff> = match (a.get(key), b.get(key)) {
            (Some(x), Some(y)) => if x.route.same(&y.route) {
                None
            } else {
                Some(
                    PublicationDiff {
                        session: key.0.clone(),
                        from: y.from.clone(),
                        to: y.to.clone(),
                        prefix: key.1.clone(),
                        change: "modified".to_owned(),
                        before: path_label(Some(&x.route)),
                        after: path_label(Some(&y.route)),
                    },
                )
            },
            (None, Some(y)) => Some(
                PublicationDiff {
                    session: key.0.clone(),
                    from: y.from.clone(),
                    to: y.to.clone(),
                    prefix: key.1.clone(),
                    change: "new".to_owned(),
                    before: path_label(None),
                    after: path_label(Some(&y.route)),
                },
            ),
            (Some(x), None) => Some(
                PublicationDiff {
                    session: key.0.clone(),
                    from: x.from.clone(),
                    to: x.to.clone(),
                    prefix: key.1.clone(),
                    change: "withdrawn".to_owned(),
                    before: path_label(Some(&x.route)),
                    after: path_label(None),
                },
            ),
            (None, None) => None,
        };
        assert(diff is Some <==> wanted(k));
        if let Some(diff) = diff {
            assert(diff@ =~= make(k));
            push_to(&mut out, diff);
            assert(all.take(i + 1).filter(wanted).map_values(make) =~= partial.push(make(k)));
        }
        i += 1;
    }
    assert(all.take(i as int) =~= all);
    out
}

fn count_at(counts: &OrdMap<(String, String), usize>, key: &(String, String)) -> (r: usize)
    ensures
        r == count_of(counts@, key.deep_view()),
{
    match counts.get(key) {
        Some(n) => *n,
        None => 0,
    }
}

fn bump(counts: &mut OrdMap<(String, String), usize>, node: &String, prefix: &String)
    ensures
        final(counts)@ == bumped(old(counts)@, (node@, prefix@)),
{
    let key = (node.clone(), prefix.clone());
    assert(key.deep_view() == (node@, prefix@));
    let n = count_at(counts, &key);
    let next: usize = if n == usize::MAX {
        n
    } else {
        n + 1
    };
    counts.insert(key, next);
}

fn prefixes_of(best: &Vec<BestEntry>, node: &String) -> (r: OrdMap<String, ()>)
    ensures
        r@.dom() == best_prefixes(best.deep_view(), node@),
{
    let ghost all = best.deep_view();
    let mut out: OrdMap<String, ()> = OrdMap::new();
    let mut i: usize = 0;
    assert(out@.dom() =~= Set::empty());
    while i < best.len()
        invariant
            i <= best@.len(),
            all == best.deep_view(),
            out@.dom() == best_prefixes(all.take(i as int), node@),
        decreases best.len() - i,
    {
        let ghost before = out@;
        proof {
            assert(all.take(i + 1).last() == best@[i as int]@);
            assert(all.take(i + 1).drop_last() =~= all.take(i as int));
        }
        if best[i].node.same(node) {
            out.insert(best[i].prefix.clone(), ());
            assert(out@.dom() =~= before.dom().insert(best@[i as int].prefix@));
        }
        i += 1;
    }
    assert(all.take(i as int) =~= all);
    out
}

fn bump_all(
    counts: &mut OrdMap<(String, String), usize>,
    node: &String,
    prefixes: &OrdMap<String, ()>,
)
    ensures
        final(counts)@ == bumped_all(
            old(counts)@,
            node@,
            in_order::<String>(prefixes@.dom()),
        ),
{
    let ghost before = counts@;
    let ghost all = in_order::<String>(prefixes@.dom());
    let n = prefixes.len();
    let mut i: usize = 0;
    while i < n
        invariant
            i <= n,
            n == all.len(),
            all == in_order::<String>(prefixes@.dom()),
            counts@ == bumped_all(before, node@, all.take(i as int)),
        decreases n - i,
    {
        assert(all.take(i + 1).drop_last() =~= all.take(i as int));
        bump(counts, node, prefixes.key_at(i));
        i += 1;
    }
    assert(all.take(i as int) =~= all);
}

/// Counts, per node and prefix, the convergence events that the node took part in. A
/// restart re-processes the prefix even when the final best route is identical.
pub fn intermediate_transitions(r: &RunResult) -> (counts: OrdMap<(NodeId, Prefix), usize>)
    ensures
        counts@ == transitions(r@.steps, r@.best),
{
    let ghost all = r@.steps;
    let mut counts: OrdMap<(NodeId, Prefix), usize> = OrdMap::new();
    let mut i: usize = 0;
    while i < r.steps.len()
        invariant
            i <= r.steps@.len(),
            all == r@.steps,
            counts@ == transitions(all.take(i as int), r@.best),
        decreases r.steps.len() - i,
    {
        let step = &r.steps[i];
        proof {
            assert(all.take(i + 1).last() == step@);
            assert(all.take(i + 1).drop_last() =~= all.take(i as int));
        }
        if let Some(prefix) = &step.prefix {
            bump(&mut counts, &step.node, prefix);
        }
        if step.kind == StepKind::Restart {
            bump_all(&mut counts, &step.node, &prefixes_of(&r.best, &step.node));
        }
        i += 1;
    }
    assert(all.take(i as int) =~= all);
    counts
}

fn diff_transitions(
    a: &OrdMap<(String, String), usize>,
    b: &OrdMap<(String, String), usize>,
) -> (r: Vec<PathDiff>)
    ensures
        r.deep_view() == transition_diffs(a@, b@),
{
    let keys = both_keys(a, b);
    let ghost all = keys_of_both(a@, b@);
    let ghost wanted = |k: (Chars, Chars)| count_of(a@, k) != count_of(b@, k);
    let ghost make = |k: (Chars, Chars)|
        PathDiffView {
            node: k.0,
            prefix: k.1,
            before: Some(decimal(count_of(a@, k) as int) + " convergence step(s)"@),
            after: Some(decimal(count_of(b@, k) as int) + " convergence step(s)"@),
        };
    let mut out: Vec<PathDiff> = Vec::new();
    let n = keys.len();
    let mut i: usize = 0;
    assert(out.deep_view() =~= all.take(0).filter(wanted).map_values(make)) by {
        reveal(Seq::filter);
    }
    while i < n
        invariant
            i <= n,
            n == all.len(),
            all == in_order::<(String, String)>(keys@.dom()),
            wanted == (|k: (Chars, Chars)| count_of(a@, k) != count_of(b@, k)),
            make == (|k: (Chars, Chars)|
                PathDiffView {
                    node: k.0,
                    prefix: k.1,
                    before: Some(decimal(count_of(a@, k) as int) + " convergence step(s)"@),
                    after: Some(decimal(count_of(b@, k) as int) + " convergence step(s)"@),
                }),
            out.deep_view() == all.take(i as int).filter(wanted).map_values(make),
        decreases n - i,
    {
        let key = keys.key_at(i);
        let ghost k = key.deep_view();
        let ghost partial = out.deep_view();
        proof {
            assert(k == (key.0@, key.1@));
            assert(all.take(i + 1) =~= all.take(i as int).push(k));
            all.take(i as int).lemma_filter_push(k, wanted);
        }
        let ca = count_at(a, key);
        let cb = count_at(b, key);
        if ca != cb {
            let diff = PathDiff {
                node: key.0.clone(),
                prefix: key.1.clone(),
                before: Some(usize_text(ca).concat(" convergence step(s)")),
                after: Some(usize_text(cb).concat(" convergence step(s)")),
            };
            assert(diff@ =~= make(k));
            push_to(&mut out, diff);
            assert(all.take(i + 1).filter(wanted).map_values(make) =~= partial.push(make(k)));
        }
        i += 1;
    }
    assert(all.take(i as int) =~= all);
    out
}

fn note_paths(nodes: &mut Vec<String>, prefixes: &mut Vec<String>, diffs: &Vec<PathDiff>)
    ensures
        final(nodes).deep_view() == all_noted(
            old(nodes).deep_view(),
            diffs.deep_view().map_values(|d: PathDiffView| d.node),
        ),
        final(prefixes).deep_view() == all_noted(
            old(prefixes).deep_view(),
            diffs.deep_view().map_values(|d: PathDiffView| d.prefix),
        ),
{
    let ghost n0 = nodes.deep_view();
    let ghost p0 = prefixes.deep_view();
    let ghost ns = diffs.deep_view().map_values(|d: PathDiffView| d.node);
    let ghost ps = diffs.deep_view().map_values(|d: PathDiffView| d.prefix);
    let mut i: usize = 0;
    while i < diffs.len()
        invariant
            i <= diffs@.len(),
            ns == diffs.deep_view().map_values(|d: PathDiffView| d.node),
            ps == diffs.deep_view().map_values(|d: PathDiffView| d.prefix),
            nodes.deep_view() == all_noted(n0, ns.take(i as int)),
            prefixes.deep_view() == all_noted(p0, ps.take(i as int)),
        decreases diffs.len() - i,
    {
        proof {
            assert(ns.take(i + 1).last() == diffs@[i as int]@.node);
            assert(ps.take(i + 1).last() == diffs@[i as int]@.prefix);
            assert(ns.take(i + 1).drop_last() =~= ns.take(i as int));
            assert(ps.take(i + 1).drop_last() =~= ps.take(i as int));
        }
        note(nodes, &diffs[i].node);
        note(prefixes, &diffs[i].prefix);
        i += 1;
    }
    assert(ns.take(i as int) =~= ns);
    assert(ps.take(i as int) =~= ps);
}

fn note_publications(
    nodes: &mut Vec<String>,
    prefixes: &mut Vec<String>,
    diffs: &Vec<PublicationDiff>,
)
    ensures
        final(nodes).deep_view() == all_noted(
            old(nodes).deep_view(),
            diffs.deep_view().map_values(|d: PublicationDiffView| d.from),
        ),
        final(prefixes).deep_view() == all_noted(
            old(prefixes).deep_view(),
            diffs.deep_view().map_values(|d: PublicationDiffView| d.prefix),
        ),
{
    let ghost n0 = nodes.deep_view();
    let ghost p0 = prefixes.deep_view();
    let ghost ns = diffs.deep_view().map_values(|d: PublicationDiffView| d.from);
    let ghost ps = diffs.deep_view().map_values(|d: PublicationDiffView| d.prefix);
    let mut i: usize = 0;
    while i < diffs.len()
        invariant
            i <= diffs@.len(),
            ns == diffs.deep_view().map_values(|d: PublicationDiffView| d.from),
            ps == diffs.deep_view().map_values(|d: PublicationDiffView| d.prefix),
            nodes.deep_view() == all_noted(n0, ns.take(i as int)),
            prefixes.deep_view() == all_noted(p0, ps.take(i as int)),
        decreases diffs.len() - i,
    {
        proof {
            assert(ns.take(i + 1).last() == diffs@[i as int]@.from);
            assert(ps.take(i + 1).last() == diffs@[i as int]@.prefix);
            assert(ns.take(i + 1).drop_last() =~= ns.take(i as int));
            assert(ps.take(i + 1).drop_last() =~= ps.take(i as int));
        }
        note(nodes, &diffs[i].from);
        note(prefixes, &diffs[i].prefix);
        i += 1;
    }
    assert(ns.take(i as int) =~= ns);
    assert(ps.take(i as int) =~= ps);
}

/// Analyses what changes from one result to another.
pub fn impact(before: &RunResult, after: &RunResult) -> (r: Impact)
    ensures
        r@ == impact_of(before@, after@),
{
    let paths = diff_paths(&index_best(&before.best), &index_best(&after.best));
    let publications = diff_publications(
        &index_advertised(&before.advertised),
        &index_advertised(&after.advertised),
    );
    let passing = diff_transitions(
        &intermediate_transitions(before),
        &intermediate_transitions(after),
    );
    let mut nodes: Vec<String> = Vec::new();
    let mut prefixes: Vec<String> = Vec::new();
    assert(nodes.deep_view() =~= Seq::empty());
    assert(prefixes.deep_view() =~= Seq::empty());
    note_paths(&mut nodes, &mut prefixes, &paths);
    note_publications(&mut nodes, &mut prefixes, &publications);
    note_paths(&mut nodes, &mut prefixes, &passing);
    Impact {
        affected_nodes: nodes,
        affected_prefixes: prefixes,
        best_path_diffs: paths,
        publication_diffs: publications,
        intermediate_diffs: passing,
        trace_changed: !before.trace_fingerprint.same(&after.trace_fingerprint),
    }
}

// ---------- validation ----------

/// What is wrong with a session.
pub open spec fn session_fault(nodes: Set<Chars>, s: SessionView) -> Option<Chars> {
    if !nodes.contains(s.local) {
        Some("session "@ + s.id + " references unknown local node "@ + s.local)
    } else if !nodes.contains(s.remote) {
        Some("session "@ + s.id + " references unknown remote node "@ + s.remote)
    } else if s.delay == 0 {
        Some("session "@ + s.id + " delay must be >= 1 tick"@)
    } else {
        None
    }
}

/// What is wrong with the first faulty session.
pub open spec fn sessions_fault(nodes: Set<Chars>, sessions: Seq<SessionView>) -> Option<Chars>
    decreases sessions.len(),
{
    if sessions.len() == 0 {
        None
    } else {
        match sessions_fault(nodes, sessions.drop_last()) {
            Some(e) => Some(e),
            None => session_fault(nodes, sessions.last()),
        }
    }
}

/// What is wrong with an announcement.
pub open spec fn announcement_fault(nodes: Set<Chars>, a: AnnouncementView) -> Option<Chars> {
    if !nodes.contains(a.node) {
        Some("announcement "@ + a.id + " on unknown node "@ + a.node)
    } else {
        None
    }
}

/// What is wrong with the first faulty announcement.
pub open spec fn announcements_fault(
    nodes: Set<Chars>,
    announcements: Seq<AnnouncementView>,
) -> Option<Chars>
    decreases announcements.len(),
{
    if announcements.len() == 0 {
        None
    } else {
        match announcements_fault(nodes, announcements.drop_last()) {
            Some(e) => Some(e),
            None => announcement_fault(nodes, announcements.last()),
        }
    }
}

/// Whether an announcement with an id is there.
pub open spec fn announced(announcements: Seq<AnnouncementView>, id: Chars) -> bool {
    exists|i: int| 0 <= i < announcements.len() && (#[trigger] announcements[i]).id == id
}

/// What is wrong with an event.
pub open spec fn event_fault(
    nodes: Set<Chars>,
    announcements: Seq<AnnouncementView>,
    event: EventSpecView,
) -> Option<Chars> {
    match event {
        EventSpecView::Withdraw { announcement, .. } => if !announced(announcements, announcement) {
            Some("event withdraws unknown announcement "@ + announcement)
        } else {
            None
        },
        EventSpecView::Restart { node, .. } => if !nodes.contains(node) {
            Some("restart on unknown node "@ + node)
        } else {
            None
        },
    }
}

/// What is wrong with the first faulty event.
pub open spec fn events_fault(
    nodes: Set<Chars>,
    announcements: Seq<AnnouncementView>,
    events: Seq<EventSpecView>,
) -> Option<Chars>
    decreases events.len(),
{
    if events.len() == 0 {
        None
    } else {
        match events_fault(nodes, announcements, events.drop_last()) {
            Some(e) => Some(e),
            None => event_fault(nodes, announcements, events.last()),
        }
    }
}

/// What is wrong with a scenario: the first fault of its sessions, then of its
/// announcements, then of its events.
pub open spec fn fault(input: ScenarioInputView) -> Option<Chars> {
    let nodes = input.nodes.dom();
    match sessions_fault(nodes, input.sessions) {
        Some(e) => Some(e),
        None => match announcements_fault(nodes, input.announcements) {
            Some(e) => Some(e),
            None => events_fault(nodes, input.announcements, input.events),
        },
    }
}

fn check_session(nodes: &OrdMap<NodeId, NodeSpec>, s: &Session) -> (r: Option<String>)
    ensures
        r.deep_view() == session_fault(nodes@.dom(), s@),
{
    if !nodes.contains_key(&s.local) {
        Some(
            "session ".to_owned().concat(s.id.as_str()).concat(
                " references unknown local node ",
            ).concat(s.local.as_str()),
        )
    } else if !nodes.contains_key(&s.remote) {
        Some(
            "session ".to_owned().concat(s.id.as_str()).concat(
                " references unknown remote node ",
            ).concat(s.remote.as_str()),
        )
    } else if s.delay == 0 {
        Some("session ".to_owned().concat(s.id.as_str()).concat(" delay must be >= 1 tick"))
    } else {
        None
    }
}

fn check_event(
    nodes: &OrdMap<NodeId, NodeSpec>,
    announcements: &Vec<Announcement>,
    event: &EventSpec,
) -> (r: Option<String>)
    ensures
        r.deep_view() == event_fault(nodes@.dom(), announcements.deep_view(), event@),
{
    match event {
        EventSpec::Withdraw { announcement, .. } => {
            let ghost all = announcements.deep_view();
            let mut i: usize = 0;
            let mut found = false;
            while i < announcements.len()
                invariant
                    i <= announcements@.len(),
                    all == announcements.deep_view(),
                    found ==> announced(all, announcement@),
                    !found ==> forall|k: int|
                        0 <= k < i ==> (#[trigger] all[k]).id != announcement@,
                decreases announcements.len() - i,
            {
                assert(all[i as int] == announcements@[i as int]@);
                if announcements[i].id.same(announcement) {
                    found = true;
                }
                i += 1;
            }
            if found {
                None
            } else {
                Some(
                    "event withdraws unknown announcement ".to_owned().concat(
                        announcement.as_str(),
                    ),
                )
            }
        },
        EventSpec::Restart { node, .. } => if !nodes.contains_key(node) {
            Some("restart on unknown node ".to_owned().concat(node.as_str()))
        } else {
            None
        },
    }
}

proof fn lemma_sessions_fault(nodes: Set<Chars>, sessions: Seq<SessionView>, n: int)
    requires
        0 <= n <= sessions.len(),
        sessions_fault(nodes, sessions.take(n)) is Some,
    ensures
        sessions_fault(nodes, sessions) == sessions_fault(nodes, sessions.take(n)),
    decreases sessions.len(),
{
    if n == sessions.len() {
        assert(sessions.take(n) =~= sessions);
    } else {
        assert(sessions.drop_last().take(n) =~= sessions.take(n));
        lemma_sessions_fault(nodes, sessions.drop_last(), n);
    }
}

proof fn lemma_announcements_fault(
    nodes: Set<Chars>,
    announcements: Seq<AnnouncementView>,
    n: int,
)
    requires
        0 <= n <= announcements.len(),
        announcements_fault(nodes, announcements.take(n)) is Some,
    ensures
        announcements_fault(nodes, announcements) == announcements_fault(
            nodes,
            announcements.take(n),
        ),
    decreases announcements.len(),
{
    if n == announcements.len() {
        assert(announcements.take(n) =~= announcements);
    } else {
        assert(announcements.drop_last().take(n) =~= announcements.take(n));
        lemma_announcements_fault(nodes, announcements.drop_last(), n);
    }
}

proof fn lemma_events_fault(
    nodes: Set<Chars>,
    announcements: Seq<AnnouncementView>,
    events: Seq<EventSpecView>,
    n: int,
)
    requires
        0 <= n <= events.len(),
        events_fault(nodes, announcements, events.take(n)) is Some,
    ensures
        events_fault(nodes, announcements, events) == events_fault(
            nodes,
            announcements,
            events.take(n),
        ),
    decreases events.len(),
{
    if n == events.len() {
        assert(events.take(n) =~= events);
    } else {
        assert(events.drop_last().take(n) =~= events.take(n));
        lemma_events_fault(nodes, announcements, events.drop_last(), n);
    }
}

fn check_sessions(input: &ScenarioInput) -> (r: Option<String>)
    ensures
        r.deep_view() == sessions_fault(input@.nodes.dom(), input@.sessions),
{
    let ghost all = input@.sessions;
    let ghost nodes = input@.nodes.dom();
    let mut i: usize = 0;
    while i < input.sessions.len()
        invariant
            i <= input.sessions@.len(),
            all == input@.sessions,
            nodes == input@.nodes.dom(),
            sessions_fault(nodes, all.take(i as int)) is None,
        decreases input.sessions.len() - i,
    {
        proof {
            assert(all.take(i + 1).last() == input.sessions@[i as int]@);
            assert(all.take(i + 1).drop_last() =~= all.take(i as int));
        }
        if let Some(e) = check_session(&input.nodes, &input.sessions[i]) {
            proof {
                lemma_sessions_fault(nodes, all, i + 1);
            }
            return Some(e);
        }
        i += 1;
    }
    assert(all.take(i as int) =~= all);
    None
}

fn check_announcements(input: &ScenarioInput) -> (r: Option<String>)
    ensures
        r.deep_view() == announcements_fault(input@.nodes.dom(), input@.announcements),
{
    let ghost all = input@.announcements;
    let ghost nodes = input@.nodes.dom();
    let mut i: usize = 0;
    while i < input.announcements.len()
        invariant
            i <= input.announcements@.len(),
            all == input@.announcements,
            nodes == input@.nodes.dom(),
            announcements_fault(nodes, all.take(i as int)) is None,
        decreases input.announcements.len() - i,
    {
        let a = &input.announcements[i];
        proof {
            assert(all.take(i + 1).last() == a@);
            assert(all.take(i + 1).drop_last() =~= all.take(i as int));
        }
        if !input.nodes.contains_key(&a.node) {
            proof {
                lemma_announcements_fault(nodes, all, i + 1);
            }
            return Some(
                "announcement ".to_owned().concat(a.id.as_str()).concat(
                    " on unknown node ",
                ).concat(a.node.as_str()),
            );
        }
        i += 1;
    }
    assert(all.take(i as int) =~= all);
    None
}

fn check_events(input: &ScenarioInput) -> (r: Option<String>)
    ensures
        r.deep_view() == events_fault(input@.nodes.dom(), input@.announcements, input@.events),
{
    let ghost all = input@.events;
    let ghost nodes = input@.nodes.dom();
    let mut i: usize = 0;
    while i < input.events.len()
        invariant
            i <= input.events@.len(),
            all == input@.events,
            nodes == input@.nodes.dom(),
            events_fault(nodes, input@.announcements, all.take(i as int)) is None,
        decreases input.events.len() - i,
    {
        proof {
            assert(all.take(i + 1).last() == input.events@[i as int]@);
            assert(all.take(i + 1).drop_last() =~= all.take(i as int));
        }
        if let Some(e) = check_event(&input.nodes, &input.announcements, &input.events[i]) {
            proof {
                lemma_events_fault(nodes, input@.announcements, all, i + 1);
            }
            return Some(e);
        }
        i += 1;
    }
    assert(all.take(i as int) =~= all);
    None
}

/// Checks that everything a scenario names is there and that every session takes time.
pub fn validate(input: &ScenarioInput) -> (r: Result<(), String>)
    ensures
        r is Ok <==> fault(input@) is None,
        r is Ok ==> runnable(input@),
        r matches Err(e) ==> fault(input@) == Some(e@),
{
    if let Some(e) = check_sessions(input) {
        return Err(e);
    }
    if let Some(e) = check_announcements(input) {
        return Err(e);
    }
    match check_events(input) {
        Some(e) => Err(e),
        None => {
            proof {
                law_valid_scenario_runs(input@);
            }
            Ok(())
        },
    }
}

proof fn lemma_sessions_valid(nodes: Set<Chars>, sessions: Seq<SessionView>, i: int)
    requires
        sessions_fault(nodes, sessions) is None,
        0 <= i < sessions.len(),
    ensures
        nodes.contains(sessions[i].local),
        nodes.contains(sessions[i].remote),
        sessions[i].delay > 0,
    decreases sessions.len(),
{
    let init = sessions.drop_last();
    if i < init.len() {
        lemma_sessions_valid(nodes, init, i);
    }
}

proof fn lemma_announcements_valid(
    nodes: Set<Chars>,
    announcements: Seq<AnnouncementView>,
    i: int,
)
    requires
        announcements_fault(nodes, announcements) is None,
        0 <= i < announcements.len(),
    ensures
        nodes.contains(announcements[i].node),
    decreases announcements.len(),
{
    let init = announcements.drop_last();
    if i < init.len() {
        lemma_announcements_valid(nodes, init, i);
    }
}

proof fn lemma_events_valid(
    nodes: Set<Chars>,
    announcements: Seq<AnnouncementView>,
    events: Seq<EventSpecView>,
    i: int,
)
    requires
        events_fault(nodes, announcements, events) is None,
        0 <= i < events.len(),
    ensures
        event_fault(nodes, announcements, events[i]) is None,
    decreases events.len(),
{
    let init = events.drop_last();
    if i < init.len() {
        lemma_events_valid(nodes, announcements, init, i);
    }
}

/// A scenario that passes validation can be simulated.
pub proof fn law_valid_scenario_runs(input: ScenarioInputView)
    requires
        fault(input) is None,
    ensures
        runnable(input),
{
    let nodes = input.nodes.dom();
    let links = input.sessions;
    assert forall|i: int| 0 <= i < links.len() implies {
        let s = crate::rib::link(links, (#[trigger] links[i]).id)->0;
        nodes.contains(s.local) && nodes.contains(s.remote)
    } by {
        crate::rib::lemma_link_exists(links, i);
        let s = crate::rib::link(links, links[i].id)->0;
        let j = choose|j: int| 0 <= j < links.len() && links[j] == s;
        lemma_sessions_valid(nodes, links, j);
    }
    assert forall|i: int| 0 <= i < input.announcements.len() implies nodes.contains(
        (#[trigger] input.announcements[i]).node,
    ) by {
        lemma_announcements_valid(nodes, input.announcements, i);
    }
    assert forall|i: int| 0 <= i < input.events.len() implies match #[trigger] input.events[i] {
        EventSpecView::Withdraw { .. } => true,
        EventSpecView::Restart { node, .. } => crate::step::restartable(nodes, links, node),
    } by {
        lemma_events_valid(nodes, input.announcements, input.events, i);
    }
}

// ---------- identity ----------

/// What a scenario is stored under.
#[derive(Clone, Debug, PartialEq, Eq)]
pub struct ScenarioIdentity {
    /// The first sixteen characters of the fingerprint.
    pub id: String,
    pub fingerprint: String,
    /// The scenario as canonical JSON.
    pub json: String,
}

/// What a [`ScenarioIdentity`] holds.
#[verifier::ext_equal]
pub struct ScenarioIdentityView {
    pub id: Chars,
    pub fingerprint: Chars,
    pub json: Chars,
}

impl View for ScenarioIdentity {
    type V = ScenarioIdentityView;

    open spec fn view(&self) -> ScenarioIdentityView {
        ScenarioIdentityView {
            id: self.id.deep_view(),
            fingerprint: self.fingerprint.deep_view(),
            json: self.json.deep_view(),
        }
    }
}

impl DeepView for ScenarioIdentity {
    type V = ScenarioIdentityView;

    open spec fn deep_view(&self) -> ScenarioIdentityView {
        self@
    }
}

impl Value for ScenarioIdentity {
    fn copy(&self) -> (r: Self) {
        ScenarioIdentity {
            id: self.id.copy(),
            fingerprint: self.fingerprint.copy(),
            json: self.json.copy(),
        }
    }

    fn same(&self, other: &Self) -> (r: bool) {
        self.id.same(&other.id)
            && self.fingerprint.same(&other.fingerprint)
            && self.json.same(&other.json)
    }
}

/// What the fingerprint of a scenario is taken of: the scenario and the engine version.
pub open spec fn identity_json(input: ScenarioInputView) -> JsonView {
    match ScenarioInput::json(input) {
        JsonView::Object(members) => JsonView::Object(
            members.push(("engine_version"@, u32::json(ENGINE_VERSION))),
        ),
        other => other,
    }
}

/// The identity of a scenario.
pub open spec fn identity(input: ScenarioInputView) -> ScenarioIdentityView {
    ScenarioIdentityView {
        id: fingerprint(identity_json(input)).take(16),
        fingerprint: fingerprint(identity_json(input)),
        json: json_text(canonical(ScenarioInput::json(input))),
    }
}

/// Computes what a scenario is stored under. The same input under the same engine version
/// has the same identity.
pub fn identify(input: &ScenarioInput) -> (r: ScenarioIdentity)
    ensures
        r@ == identity(input@),
        r@.id.len() == 16,
        r@.fingerprint.len() == 64,
{
    let j = match input.to_json() {
        Json::Object(list) => {
            let ghost members = Json::Object(list)@->Object_0;
            let mut list = list;
            let version: u32 = ENGINE_VERSION;
            list.push(("engine_version".to_owned(), version.to_json()));
            let j = Json::Object(list);
            assert(j@->Object_0 =~= members.push(
                ("engine_version"@, u32::json(ENGINE_VERSION)),
            ));
            j
        },
        other => other,
    };
    let (fp, id) = fingerprint_and_id(&j);
    ScenarioIdentity { id, fingerprint: fp, json: canonical_string(input) }
}

// ---------- requests ----------

/// Why a request is refused, with the HTTP status that says so.
#[derive(Clone, Debug, PartialEq, Eq)]
pub struct Refusal {
    pub status: u32,
    pub message: String,
}

/// What a [`Refusal`] holds.
#[verifier::ext_equal]
pub struct RefusalView {
    pub status: u32,
    pub message: Chars,
}

impl View for Refusal {
    type V = RefusalView;

    open spec fn view(&self) -> RefusalView {
        RefusalView {
            status: self.status,
            message: self.message.deep_view(),
        }
    }
}

impl DeepView for Refusal {
    type V = RefusalView;

    open spec fn deep_view(&self) -> RefusalView {
        self@
    }
}

impl Value for Refusal {
    fn copy(&self) -> (r: Self) {
        Refusal {
            status: self.status,
            message: self.message.copy(),
        }
    }

    fn same(&self, other: &Self) -> (r: bool) {
        self.status == other.status
            && self.message.same(&other.message)
    }
}

/// The answer to a preview: the branch, its run and what it changes.
#[derive(Debug)]
pub struct PreviewPlan {
    pub preview: EditPreview,
    pub result: RunResult,
    pub impact: Impact,
}

/// What a [`PreviewPlan`] holds.
#[verifier::ext_equal]
pub struct PreviewPlanView {
    pub preview: EditPreviewView,
    pub result: RunResultView,
    pub impact: ImpactView,
}

impl View for PreviewPlan {
    type V = PreviewPlanView;

    open spec fn view(&self) -> PreviewPlanView {
        PreviewPlanView {
            preview: self.preview.deep_view(),
            result: self.result.deep_view(),
            impact: self.impact.deep_view(),
        }
    }
}

impl DeepView for PreviewPlan {
    type V = PreviewPlanView;

    open spec fn deep_view(&self) -> PreviewPlanView {
        self@
    }
}

/// A branch that may be published, with its run and its identity.
#[derive(Debug)]
pub struct CommitPlan {
    pub preview: EditPreview,
    pub result: RunResult,
    pub identity: ScenarioIdentity,
}

/// What a [`CommitPlan`] holds.
#[verifier::ext_equal]
pub struct CommitPlanView {
    pub preview: EditPreviewView,
    pub result: RunResultView,
    pub identity: ScenarioIdentityView,
}

impl View for CommitPlan {
    type V = CommitPlanView;

    open spec fn view(&self) -> CommitPlanView {
        CommitPlanView {
            preview: self.preview.deep_view(),
            result: self.result.deep_view(),
            identity: self.identity.deep_view(),
        }
    }
}

impl DeepView for CommitPlan {
    type V = CommitPlanView;

    open spec fn deep_view(&self) -> CommitPlanView {
        self@
    }
}

/// A request that cannot be understood or carried out.
pub open spec fn bad_request(message: Chars) -> RefusalView {
    RefusalView { status: 400, message }
}

/// The refusal of a branch whose run is inconclusive.
pub open spec fn not_conclusive() -> RefusalView {
    RefusalView {
        status: 409,
        message: "refusing to publish branch: simulation is inconclusive (cap hit, no proof)"@,
    }
}

/// What becomes of an uploaded scenario: its identity, or what is wrong with it.
pub open spec fn created(input: ScenarioInputView) -> Result<ScenarioIdentityView, RefusalView> {
    match fault(input) {
        Some(e) => Err(bad_request(e)),
        None => Ok(identity(input)),
    }
}

/// Decides on an uploaded scenario.
pub fn plan_create(input: &ScenarioInput) -> (r: Result<ScenarioIdentity, Refusal>)
    ensures
        match r {
            Ok(i) => created(input@) == Ok::<ScenarioIdentityView, RefusalView>(i@) && runnable(
                input@,
            ),
            Err(e) => created(input@) == Err::<ScenarioIdentityView, RefusalView>(e@),
        },
{
    match validate(input) {
        Err(e) => Err(Refusal { status: 400, message: e }),
        Ok(_) => Ok(identify(input)),
    }
}

/// A branch that is valid, or why there is none.
pub open spec fn valid_branch(
    base: ScenarioInputView,
    edits: EditSetView,
    name: Chars,
) -> Result<EditPreviewView, RefusalView> {
    match branched(base, edits, name) {
        Err(e) => Err(bad_request(e)),
        Ok(p) => match fault(p.scenario) {
            Some(e) => Err(bad_request(e)),
            None => Ok(p),
        },
    }
}

fn branch_and_check(base: &ScenarioInput, edits: &EditSet, name: String) -> (r: Result<
    EditPreview,
    Refusal,
>)
    ensures
        match r {
            Ok(p) => valid_branch(base@, edits@, name@) == Ok::<EditPreviewView, RefusalView>(p@)
                && runnable(p@.scenario),
            Err(e) => valid_branch(base@, edits@, name@) == Err::<EditPreviewView, RefusalView>(
                e@,
            ),
        },
{
    let preview = match branch(base, edits, name) {
        Ok(p) => p,
        Err(e) => {
            return Err(Refusal { status: 400, message: e });
        },
    };
    match validate(&preview.scenario) {
        Err(e) => Err(Refusal { status: 400, message: e }),
        Ok(_) => Ok(preview),
    }
}

/// The name of a branch that names none.
pub open spec fn branch_name_or(base: ScenarioInputView, name: Option<Chars>) -> Chars {
    match name {
        Some(n) => n,
        None => base.name + "-branch"@,
    }
}

/// What a preview answers: the branch, its simulation, and its impact against the stored
/// run of the base, or against a fresh one where none is stored.
pub open spec fn previewed(
    base: ScenarioInputView,
    edits: EditSetView,
    name: Option<Chars>,
    base_run: Option<RunResultView>,
) -> Result<PreviewPlanView, RefusalView> {
    match valid_branch(base, edits, branch_name_or(base, name)) {
        Err(e) => Err(e),
        Ok(p) => Ok(
            PreviewPlanView {
                preview: p,
                result: simulation(p.scenario),
                impact: impact_of(
                    match base_run {
                        Some(r) => r,
                        None => simulation(base),
                    },
                    simulation(p.scenario),
                ),
            },
        ),
    }
}

/// Answers a preview. Nothing is stored.
pub fn plan_preview(
    base: &ScenarioInput,
    edits: &EditSet,
    name: Option<String>,
    base_run: Option<RunResult>,
) -> (r: Result<PreviewPlan, Refusal>)
    ensures
        match r {
            Ok(p) => previewed(base@, edits@, name.deep_view(), base_run.deep_view()) == Ok::<
                PreviewPlanView,
                RefusalView,
            >(p@),
            Err(e) => previewed(base@, edits@, name.deep_view(), base_run.deep_view()) == Err::<
                PreviewPlanView,
                RefusalView,
            >(e@),
        },
{
    let branch_name = match name {
        Some(n) => n,
        None => base.name.clone().concat("-branch"),
    };
    let preview = match branch_and_check(base, edits, branch_name) {
        Ok(p) => p,
        Err(e) => {
            return Err(e);
        },
    };
    proof {
        lemma_base_of_valid_branch(base@, edits@, branch_name@);
        law_valid_scenario_runs(base@);
    }
    let base_result = match base_run {
        Some(run) => run,
        None => simulate(base),
    };
    let result = simulate(&preview.scenario);
    let impact = impact(&base_result, &result);
    Ok(PreviewPlan { preview, result, impact })
}

/// What a commit leads to. Only a branch whose run is stable, or oscillates with a proof,
/// may be published.
pub open spec fn committed(
    base: ScenarioInputView,
    edits: EditSetView,
    name: Chars,
) -> Result<CommitPlanView, RefusalView> {
    match valid_branch(base, edits, name) {
        Err(e) => Err(e),
        Ok(p) => if simulation(p.scenario).status == RunStatus::Inconclusive {
            Err(not_conclusive())
        } else {
            Ok(
                CommitPlanView {
                    preview: p,
                    result: simulation(p.scenario),
                    identity: identity(p.scenario),
                },
            )
        },
    }
}

/// Decides on a commit.
pub fn plan_commit(base: &ScenarioInput, edits: &EditSet, name: String) -> (r: Result<
    CommitPlan,
    Refusal,
>)
    ensures
        match r {
            Ok(p) => committed(base@, edits@, name@) == Ok::<CommitPlanView, RefusalView>(p@)
                && runnable(p@.preview.scenario),
            Err(e) => committed(base@, edits@, name@) == Err::<CommitPlanView, RefusalView>(e@),
        },
{
    let preview = match branch_and_check(base, edits, name) {
        Ok(p) => p,
        Err(e) => {
            return Err(e);
        },
    };
    let result = simulate(&preview.scenario);
    match result.status {
        RunStatus::Inconclusive => Err(
            Refusal {
                status: 409,
                message: "refusing to publish branch: simulation is inconclusive (cap hit, no proof)".to_owned(),
            },
        ),
        _ => {
            let identity = identify(&preview.scenario);
            Ok(CommitPlan { preview, result, identity })
        },
    }
}

/// Whether a computation has to be made.
#[derive(Clone, Debug, PartialEq, Eq)]
pub enum ComputePlan {
    /// The recorded trace fingerprint and the stored run serve.
    Reuse(String),
    /// The scenario has to be simulated.
    Simulate,
}

/// Decides whether a recorded computation serves: its trace fingerprint must be known and
/// its run must be stored.
pub fn plan_compute(recorded: Option<String>, run_stored: bool) -> (r: ComputePlan)
    ensures
        r matches ComputePlan::Reuse(t) ==> recorded.deep_view() == Some(t@),
        r is Reuse <==> recorded is Some && run_stored,
{
    match recorded {
        Some(trace) => if run_stored {
            ComputePlan::Reuse(trace)
        } else {
            ComputePlan::Simulate
        },
        None => ComputePlan::Simulate,
    }
}

/// The scenario that two drafts are compared against: their common parent, or else the
/// left one.
pub open spec fn common_base(
    left_id: Chars,
    left: Option<ScenarioRowView>,
    right: Option<ScenarioRowView>,
) -> Chars {
    match (left, right) {
        (Some(l), Some(r)) => match l.parent_id {
            Some(parent) => if r.parent_id == Some(parent) {
                parent
            } else {
                left_id
            },
            None => left_id,
        },
        _ => left_id,
    }
}

/// Finds the scenario that two drafts are compared against.
pub fn diff_base(
    left_id: &String,
    left: &Option<ScenarioRow>,
    right: &Option<ScenarioRow>,
) -> (r: String)
    ensures
        r@ == common_base(left_id@, left.deep_view(), right.deep_view()),
{
    if let (Some(l), Some(rt)) = (left, right) {
        if let Some(parent) = &l.parent_id {
            if l.parent_id.same(&rt.parent_id) {
                return parent.clone();
            }
        }
    }
    left_id.clone()
}

/// A text with hyphens in place of spaces.
pub open spec fn hyphenated(s: Chars) -> Chars {
    s.map_values(
        |c: char|
            if c == ' ' {
                '-'
            } else {
                c
            },
    )
}

/// The id of a draft: the scenario and its label, without spaces.
pub fn draft_id(scenario: &str, label: &str) -> (r: String)
    ensures
        r@ == scenario@ + ":"@ + hyphenated(label@),
{
    let ghost front = scenario@ + ":"@;
    let mut out = scenario.to_owned().concat(":");
    let n = label.unicode_len();
    let mut i: usize = 0;
    assert(front + hyphenated(label@).take(0) =~= front);
    while i < n
        invariant
            i <= n,
            n == label@.len(),
            front == scenario@ + ":"@,
            out@ == front + hyphenated(label@).take(i as int),
        decreases n - i,
    {
        let ghost before = out@;
        if label.get_char(i) == ' ' {
            out.append("-");
            proof {
                reveal_strlit("-");
                assert(out@ =~= before.push('-'));
            }
        } else {
            out.append(label.substring_char(i, i + 1));
            assert(out@ =~= before.push(label@[i as int]));
        }
        assert(front + hyphenated(label@).take(i + 1) =~= before.push(
            hyphenated(label@)[i as int],
        ));
        i += 1;
    }
    assert(hyphenated(label@).take(i as int) =~= hyphenated(label@));
    out
}

/// The name of a status in the store.
pub open spec fn status_name(status: RunStatus) -> Chars {
    match status {
        RunStatus::Stable => "stable"@,
        RunStatus::Oscillation => "oscillation"@,
        RunStatus::Inconclusive => "inconclusive"@,
    }
}

/// Names a status in the store.
pub fn status_label(status: RunStatus) -> (r: &'static str)
    ensures
        r@ == status_name(status),
{
    match status {
        RunStatus::Stable => "stable",
        RunStatus::Oscillation => "oscillation",
        RunStatus::Inconclusive => "inconclusive",
    }
}

// ---------- laws ----------

/// The base of a valid branch is valid.
proof fn lemma_base_of_valid_branch(base: ScenarioInputView, edits: EditSetView, name: Chars)
    requires
        valid_branch(base, edits, name) is Ok,
    ensures
        fault(base) is None,
{
    crate::scenario::law_branch_keeps_base(base, edits, name);
    let p = branched(base, edits, name)->Ok_0;
    let nodes = base.nodes.dom();
    if events_fault(nodes, base.announcements, base.events) is Some {
        lemma_events_fault(
            nodes,
            base.announcements,
            p.scenario.events,
            base.events.len() as int,
        );
    }
}

/// A branch is published only if its run is stable, or oscillates with a proof. One whose
/// run is inconclusive is refused with status 409.
pub proof fn law_inconclusive_branch_is_refused(
    base: ScenarioInputView,
    edits: EditSetView,
    name: Chars,
)
    ensures
        committed(base, edits, name) matches Ok(c) ==> {
            ||| c.result.status == RunStatus::Stable
            ||| c.result.status == RunStatus::Oscillation && c.result.cycle is Some
        },
        (valid_branch(base, edits, name) matches Ok(p) && simulation(p.scenario).status
            == RunStatus::Inconclusive) ==> committed(base, edits, name) == Err::<
            CommitPlanView,
            RefusalView,
        >(not_conclusive()),
{
    if let Ok(p) = valid_branch(base, edits, name) {
        law_valid_scenario_runs(p.scenario);
        crate::engine::law_result_is_borne_out(p.scenario);
    }
}

/// What a commit publishes is what a preview under the same name has shown.
pub proof fn law_commit_matches_preview(
    base: ScenarioInputView,
    edits: EditSetView,
    name: Chars,
    base_run: Option<RunResultView>,
)
    ensures
        committed(base, edits, name) matches Ok(c) ==> {
            &&& previewed(base, edits, Some(name), base_run) matches Ok(p)
            &&& p.preview == c.preview
            &&& p.result == c.result
        },
{
}

/// Another event without a fault leaves the events without one.
proof fn lemma_event_pushed(
    nodes: Set<Chars>,
    announcements: Seq<AnnouncementView>,
    events: Seq<EventSpecView>,
    event: EventSpecView,
)
    requires
        events_fault(nodes, announcements, events) is None,
        event_fault(nodes, announcements, event) is None,
    ensures
        events_fault(nodes, announcements, events.push(event)) is None,
{
    assert(events.push(event).drop_last() =~= events);
}

proof fn lemma_withdrawals_valid(
    base: ScenarioInputView,
    asked: Option<u64>,
    ids: Seq<Chars>,
    d: crate::scenario::DraftView,
)
    requires
        fault(d.next) is None,
    ensures
        fault(crate::scenario::announcements_withdrawn(base, asked, ids, d).next) is None,
    decreases ids.len(),
{
    if ids.len() > 0 {
        let init = ids.drop_last();
        lemma_withdrawals_valid(base, asked, init, d);
        let before = crate::scenario::announcements_withdrawn(base, asked, init, d);
        let out = crate::scenario::announcement_withdrawn(base, asked, ids.last(), before);
        if out != before {
            crate::engine::lemma_announcement_of(before.next.announcements, ids.last());
            let ann = crate::engine::announcement_of(before.next.announcements, ids.last())->0;
            let i = choose|i: int|
                0 <= i < before.next.announcements.len() && before.next.announcements[i] == ann;
            assert(before.next.announcements[i].id == ids.last());
            lemma_event_pushed(
                before.next.nodes.dom(),
                before.next.announcements,
                before.next.events,
                out.next.events.last(),
            );
            assert(out.next.events =~= before.next.events.push(out.next.events.last()));
        }
    }
}

proof fn lemma_restarts_valid(
    base: ScenarioInputView,
    asked: Option<u64>,
    nodes: Seq<Chars>,
    d: crate::scenario::DraftView,
)
    requires
        fault(d.next) is None,
    ensures
        crate::scenario::restarts_injected(base, asked, nodes, d) matches Ok(out) ==> fault(
            out.next,
        ) is None,
    decreases nodes.len(),
{
    if nodes.len() > 0 {
        let init = nodes.drop_last();
        lemma_restarts_valid(base, asked, init, d);
        if let Ok(before) = crate::scenario::restarts_injected(base, asked, init, d) {
            if let Ok(out) = crate::scenario::restart_injected(base, asked, nodes.last(), before) {
                if out != before {
                    lemma_event_pushed(
                        before.next.nodes.dom(),
                        before.next.announcements,
                        before.next.events,
                        out.next.events.last(),
                    );
                    assert(out.next.events =~= before.next.events.push(out.next.events.last()));
                }
            }
        }
    }
}

proof fn lemma_rule_edits_valid(
    base: ScenarioInputView,
    edits: Seq<crate::model::RuleEditView>,
    d: crate::scenario::DraftView,
)
    requires
        fault(d.next) is None,
        d.next.nodes.dom() == base.nodes.dom(),
    ensures
        crate::scenario::rules_edited(base, edits, d) matches Ok(out) ==> fault(out.next) is None
            && out.next.nodes.dom() == base.nodes.dom(),
    decreases edits.len(),
{
    if edits.len() > 0 {
        lemma_rule_edits_valid(base, edits.drop_last(), d);
        if let Ok(before) = crate::scenario::rules_edited(base, edits.drop_last(), d) {
            if let Ok(out) = crate::scenario::rule_edited(base, edits.last(), before) {
                assert(out.next.nodes.dom() =~= base.nodes.dom());
            }
        }
    }
}

proof fn lemma_rule_removals_valid(
    base: ScenarioInputView,
    gone: Seq<crate::model::RuleRefView>,
    d: crate::scenario::DraftView,
)
    requires
        fault(d.next) is None,
        d.next.nodes.dom() == base.nodes.dom(),
    ensures
        crate::scenario::rules_removed(base, gone, d) matches Ok(out) ==> fault(out.next) is None
            && out.next.nodes.dom() == base.nodes.dom(),
    decreases gone.len(),
{
    if gone.len() > 0 {
        lemma_rule_removals_valid(base, gone.drop_last(), d);
        if let Ok(before) = crate::scenario::rules_removed(base, gone.drop_last(), d) {
            if let Ok(out) = crate::scenario::rule_removed(base, gone.last(), before) {
                assert(out.next.nodes.dom() =~= base.nodes.dom());
            }
        }
    }
}

/// Every branch of a valid scenario is valid.
pub proof fn law_branch_keeps_validity(base: ScenarioInputView, edits: EditSetView, name: Chars)
    requires
        fault(base) is None,
    ensures
        branched(base, edits, name) matches Ok(p) ==> fault(p.scenario) is None,
        branched(base, edits, name) is Ok <==> valid_branch(base, edits, name) is Ok,
{
    let d0 = crate::scenario::blank(base, name);
    lemma_rule_edits_valid(base, edits.rules, d0);
    if let Ok(d1) = crate::scenario::rules_edited(base, edits.rules, d0) {
        lemma_rule_removals_valid(base, edits.removed_rule_ids, d1);
        if let Ok(d2) = crate::scenario::rules_removed(base, edits.removed_rule_ids, d1) {
            let d3 = crate::scenario::announcements_withdrawn(
                base,
                edits.restart_tick,
                edits.withdraw,
                d2,
            );
            lemma_withdrawals_valid(base, edits.restart_tick, edits.withdraw, d2);
            lemma_restarts_valid(base, edits.restart_tick, edits.restart, d3);
        }
    }
}

proof fn lemma_no_matches<A>(s: Seq<A>, p: spec_fn(A) -> bool)
    requires
        forall|x: A| !#[trigger] p(x),
    ensures
        s.filter(p) == Seq::<A>::empty(),
    decreases s.len(),
{
    reveal(Seq::filter);
    if s.len() > 0 {
        lemma_no_matches(s.drop_last(), p);
    } else {
        assert(s.filter(p) =~= Seq::empty());
    }
}

/// A result has no impact against itself: nothing differs, and nothing is affected.
pub proof fn law_no_change_no_impact(r: RunResultView)
    ensures
        ({
            let i = impact_of(r, r);
            &&& i.affected_nodes.len() == 0
            &&& i.affected_prefixes.len() == 0
            &&& i.best_path_diffs.len() == 0
            &&& i.publication_diffs.len() == 0
            &&& i.intermediate_diffs.len() == 0
            &&& !i.trace_changed
        }),
{
    let best = best_by_key(r.best);
    let adv = advertised_by_key(r.advertised);
    let counts = transitions(r.steps, r.best);
    lemma_no_matches(
        keys_of_both(best, best),
        |k: (Chars, Chars)| lookup(best, k) != lookup(best, k),
    );
    lemma_no_matches(
        keys_of_both(adv, adv),
        |k: (Chars, Chars)| route_of(lookup(adv, k)) != route_of(lookup(adv, k)),
    );
    lemma_no_matches(
        keys_of_both(counts, counts),
        |k: (Chars, Chars)| count_of(counts, k) != count_of(counts, k),
    );
}

proof fn lemma_all_noted(list: Seq<Chars>, others: Seq<Chars>, x: Chars)
    ensures
        all_noted(list, others).contains(x) <==> list.contains(x) || others.contains(x),
    decreases others.len(),
{
    if others.len() > 0 {
        let init = others.drop_last();
        lemma_all_noted(list, init, x);
        crate::scenario::lemma_noted(all_noted(list, init), others.last(), x);
        if init.contains(x) {
            let i = choose|i: int| 0 <= i < init.len() && init[i] == x;
            assert(others[i] == x);
        }
        if others.contains(x) && x != others.last() {
            let i = choose|i: int| 0 <= i < others.len() && others[i] == x;
            assert(init[i] == x);
        }
        assert(others[others.len() - 1] == others.last());
    }
}

proof fn lemma_keys_finite(r: RunResultView)
    ensures
        best_by_key(r.best).dom().finite(),
        advertised_by_key(r.advertised).dom().finite(),
    decreases r.best.len() + r.advertised.len(),
{
    if r.best.len() > 0 {
        lemma_keys_finite(RunResultView { best: r.best.drop_last(), ..r });
    } else if r.advertised.len() > 0 {
        lemma_keys_finite(RunResultView { advertised: r.advertised.drop_last(), ..r });
    }
}

/// A key is among those that differ exactly where it differs.
proof fn lemma_differing_keys<A, B>(
    a: Map<(Chars, Chars), A>,
    b: Map<(Chars, Chars), B>,
    p: spec_fn((Chars, Chars)) -> bool,
    k: (Chars, Chars),
)
    requires
        a.dom().finite(),
        b.dom().finite(),
        p(k) ==> a.dom().contains(k) || b.dom().contains(k),
    ensures
        keys_of_both(a, b).filter(p).contains(k) <==> p(k),
{
    let dom = a.dom().union(b.dom());
    let keys = keys_of_both(a, b);
    crate::ordmap::lemma_in_order_exists::<(String, String)>(dom);
    if p(k) {
        assert(keys.to_set().contains(k));
        let i = choose|i: int| 0 <= i < keys.len() && keys[i] == k;
        keys.lemma_filter_contains(p, i);
    }
    if keys.filter(p).contains(k) {
        let i = choose|i: int| 0 <= i < keys.filter(p).len() && keys.filter(p)[i] == k;
        keys.lemma_filter_pred(p, i);
    }
}

/// An impact lists a node and a prefix exactly where the best routes differ, and a session
/// and a prefix exactly where the published routes differ.
pub proof fn law_impact_is_complete(
    before: RunResultView,
    after: RunResultView,
    k: (Chars, Chars),
)
    ensures
        ({
            let i = impact_of(before, after);
            &&& (exists|j: int|
                0 <= j < i.best_path_diffs.len() && (#[trigger] i.best_path_diffs[j]).node == k.0
                    && i.best_path_diffs[j].prefix == k.1) <==> lookup(
                best_by_key(before.best),
                k,
            ) != lookup(best_by_key(after.best), k)
            &&& (exists|j: int|
                0 <= j < i.publication_diffs.len() && (#[trigger] i.publication_diffs[j]).session
                    == k.0 && i.publication_diffs[j].prefix == k.1) <==> route_of(
                lookup(advertised_by_key(before.advertised), k),
            ) != route_of(lookup(advertised_by_key(after.advertised), k))
        }),
{
    let i = impact_of(before, after);
    lemma_keys_finite(before);
    lemma_keys_finite(after);
    let a = best_by_key(before.best);
    let b = best_by_key(after.best);
    let p = |x: (Chars, Chars)| lookup(a, x) != lookup(b, x);
    let f = keys_of_both(a, b).filter(p);
    lemma_differing_keys(a, b, p, k);
    if f.contains(k) {
        let j = choose|j: int| 0 <= j < f.len() && f[j] == k;
        assert(i.best_path_diffs[j].node == k.0 && i.best_path_diffs[j].prefix == k.1);
    }
    if exists|j: int|
        0 <= j < i.best_path_diffs.len() && (#[trigger] i.best_path_diffs[j]).node == k.0
            && i.best_path_diffs[j].prefix == k.1 {
        let j = choose|j: int|
            0 <= j < i.best_path_diffs.len() && (#[trigger] i.best_path_diffs[j]).node == k.0
                && i.best_path_diffs[j].prefix == k.1;
        assert(f[j] == k);
    }
    let c = advertised_by_key(before.advertised);
    let d = advertised_by_key(after.advertised);
    let q = |x: (Chars, Chars)| route_of(lookup(c, x)) != route_of(lookup(d, x));
    let g = keys_of_both(c, d).filter(q);
    lemma_differing_keys(c, d, q, k);
    if g.contains(k) {
        let j = choose|j: int| 0 <= j < g.len() && g[j] == k;
        assert(i.publication_diffs[j].session == k.0 && i.publication_diffs[j].prefix == k.1);
    }
    if exists|j: int|
        0 <= j < i.publication_diffs.len() && (#[trigger] i.publication_diffs[j]).session == k.0
            && i.publication_diffs[j].prefix == k.1 {
        let j = choose|j: int|
            0 <= j < i.publication_diffs.len() && (#[trigger] i.publication_diffs[j]).session
                == k.0 && i.publication_diffs[j].prefix == k.1;
        assert(g[j] == k);
    }
}

/// Every difference that an impact lists names an affected node and an affected prefix.
pub proof fn law_impact_names_all_affected(before: RunResultView, after: RunResultView)
    ensures
        ({
            let i = impact_of(before, after);
            &&& forall|k: int|
                0 <= k < i.best_path_diffs.len() ==> i.affected_nodes.contains(
                    (#[trigger] i.best_path_diffs[k]).node,
                ) && i.affected_prefixes.contains(i.best_path_diffs[k].prefix)
            &&& forall|k: int|
                0 <= k < i.publication_diffs.len() ==> i.affected_nodes.contains(
                    (#[trigger] i.publication_diffs[k]).from,
                ) && i.affected_prefixes.contains(i.publication_diffs[k].prefix)
            &&& forall|k: int|
                0 <= k < i.intermediate_diffs.len() ==> i.affected_nodes.contains(
                    (#[trigger] i.intermediate_diffs[k]).node,
                ) && i.affected_prefixes.contains(i.intermediate_diffs[k].prefix)
        }),
{
    let i = impact_of(before, after);
    let n1 = i.best_path_diffs.map_values(|d: PathDiffView| d.node);
    let n2 = i.publication_diffs.map_values(|d: PublicationDiffView| d.from);
    let n3 = i.intermediate_diffs.map_values(|d: PathDiffView| d.node);
    let p1 = i.best_path_diffs.map_values(|d: PathDiffView| d.prefix);
    let p2 = i.publication_diffs.map_values(|d: PublicationDiffView| d.prefix);
    let p3 = i.intermediate_diffs.map_values(|d: PathDiffView| d.prefix);
    assert forall|x: Chars| n1.contains(x) || n2.contains(x) || n3.contains(
        x,
    ) implies #[trigger] i.affected_nodes.contains(x) by {
        lemma_all_noted(Seq::empty(), n1, x);
        lemma_all_noted(all_noted(Seq::empty(), n1), n2, x);
        lemma_all_noted(all_noted(all_noted(Seq::empty(), n1), n2), n3, x);
    }
    assert forall|x: Chars| p1.contains(x) || p2.contains(x) || p3.contains(
        x,
    ) implies #[trigger] i.affected_prefixes.contains(x) by {
        lemma_all_noted(Seq::empty(), p1, x);
        lemma_all_noted(all_noted(Seq::empty(), p1), p2, x);
        lemma_all_noted(all_noted(all_noted(Seq::empty(), p1), p2), p3, x);
    }
    assert forall|k: int| 0 <= k < i.best_path_diffs.len() implies i.affected_nodes.contains(
        (#[trigger] i.best_path_diffs[k]).node,
    ) && i.affected_prefixes.contains(i.best_path_diffs[k].prefix) by {
        assert(n1.contains(n1[k]) && p1.contains(p1[k]));
    }
    assert forall|k: int| 0 <= k < i.publication_diffs.len() implies i.affected_nodes.contains(
        (#[trigger] i.publication_diffs[k]).from,
    ) && i.affected_prefixes.contains(i.publication_diffs[k].prefix) by {
        assert(n2.contains(n2[k]) && p2.contains(p2[k]));
    }
    assert forall|k: int| 0 <= k < i.intermediate_diffs.len() implies i.affected_nodes.contains(
        (#[trigger] i.intermediate_diffs[k]).node,
    ) && i.affected_prefixes.contains(i.intermediate_diffs[k].prefix) by {
        assert(n3.contains(n3[k]) && p3.contains(p3[k]));
    }
}

// ---------- impact, entry by entry ----------

/// Whether a list of best routes gives a route for a node and a prefix: the last entry for
/// them, or none.
pub open spec fn gives_best(
    best: Seq<BestEntryView>,
    node: Chars,
    prefix: Chars,
    route: Option<RouteView>,
) -> bool {
    match route {
        Some(r) => exists|i: int|
            0 <= i < best.len() && (#[trigger] best[i]).node == node && best[i].prefix == prefix
                && best[i].route == r && (forall|k: int|
                i < k < best.len() ==> !((#[trigger] best[k]).node == node && best[k].prefix
                    == prefix)),
        None => forall|k: int|
            0 <= k < best.len() ==> !((#[trigger] best[k]).node == node && best[k].prefix
                == prefix),
    }
}

/// Whether a list of advertisements gives one for a session and a prefix: the last entry for
/// them, or none.
pub open spec fn gives_advertised(
    advertised: Seq<AdvertisedRouteView>,
    session: Chars,
    prefix: Chars,
    a: Option<AdvertisedRouteView>,
) -> bool {
    match a {
        Some(x) => x.session == session && x.prefix == prefix && exists|i: int|
            0 <= i < advertised.len() && (#[trigger] advertised[i]) == x && (forall|k: int|
                i < k < advertised.len() ==> !((#[trigger] advertised[k]).session == session
                    && advertised[k].prefix == prefix)),
        None => forall|k: int|
            0 <= k < advertised.len() ==> !((#[trigger] advertised[k]).session == session
                && advertised[k].prefix == prefix),
    }
}

proof fn lemma_gives_best(
    best: Seq<BestEntryView>,
    node: Chars,
    prefix: Chars,
    route: Option<RouteView>,
)
    requires
        gives_best(best, node, prefix, route),
    ensures
        lookup(best_by_key(best), (node, prefix)) == route,
    decreases best.len(),
{
    if best.len() > 0 {
        let init = best.drop_last();
        assert(best[best.len() - 1] == best.last());
        if best.last().node == node && best.last().prefix == prefix {
            let i = choose|i: int|
                0 <= i < best.len() && (#[trigger] best[i]).node == node && best[i].prefix
                    == prefix && best[i].route == route->0 && (forall|k: int|
                    i < k < best.len() ==> !((#[trigger] best[k]).node == node && best[k].prefix
                        == prefix));
            assert(i == best.len() - 1);
        } else {
            assert(gives_best(init, node, prefix, route)) by {
                assert forall|k: int| 0 <= k < init.len() implies #[trigger] init[k] == best[k]
                    by {}
                if route is Some {
                    let i = choose|i: int|
                        0 <= i < best.len() && (#[trigger] best[i]).node == node && best[i].prefix
                            == prefix && best[i].route == route->0 && (forall|k: int|
                            i < k < best.len() ==> !((#[trigger] best[k]).node == node
                                && best[k].prefix == prefix));
                    assert(init[i] == best[i]);
                    assert forall|k: int| i < k < init.len() implies !((
                    #[trigger] init[k]).node == node && init[k].prefix == prefix) by {
                        assert(init[k] == best[k]);
                    }
                } else {
                    assert forall|k: int| 0 <= k < init.len() implies !((
                    #[trigger] init[k]).node == node && init[k].prefix == prefix) by {
                        assert(init[k] == best[k]);
                    }
                }
            }
            lemma_gives_best(init, node, prefix, route);
        }
    }
}

proof fn lemma_gives_advertised(
    advertised: Seq<AdvertisedRouteView>,
    session: Chars,
    prefix: Chars,
    a: Option<AdvertisedRouteView>,
)
    requires
        gives_advertised(advertised, session, prefix, a),
    ensures
        lookup(advertised_by_key(advertised), (session, prefix)) == a,
    decreases advertised.len(),
{
    let all = advertised;
    if all.len() > 0 {
        let init = all.drop_last();
        assert(all[all.len() - 1] == all.last());
        if all.last().session == session && all.last().prefix == prefix {
            let i = choose|i: int|
                0 <= i < all.len() && (#[trigger] all[i]) == a->0 && (forall|k: int|
                    i < k < all.len() ==> !((#[trigger] all[k]).session == session
                        && all[k].prefix == prefix));
            assert(i == all.len() - 1);
        } else {
            assert(gives_advertised(init, session, prefix, a)) by {
                if a is Some {
                    let i = choose|i: int|
                        0 <= i < all.len() && (#[trigger] all[i]) == a->0 && (forall|k: int|
                            i < k < all.len() ==> !((#[trigger] all[k]).session == session
                                && all[k].prefix == prefix));
                    assert(init[i] == all[i]);
                    assert forall|k: int| i < k < init.len() implies !((
                    #[trigger] init[k]).session == session && init[k].prefix == prefix) by {
                        assert(init[k] == all[k]);
                    }
                } else {
                    assert forall|k: int| 0 <= k < init.len() implies !((
                    #[trigger] init[k]).session == session && init[k].prefix == prefix) by {
                        assert(init[k] == all[k]);
                    }
                }
            }
            lemma_gives_advertised(init, session, prefix, a);
        }
    }
}

/// An impact compares best routes one by one. There is a difference for a node and a prefix
/// exactly where the two results give different best routes, or only one of them gives one;
/// and it says both in words, the earlier one first.
pub proof fn law_impact_compares_best_routes(
    before: RunResultView,
    after: RunResultView,
    node: Chars,
    prefix: Chars,
    a: Option<RouteView>,
    b: Option<RouteView>,
)
    requires
        gives_best(before.best, node, prefix, a),
        gives_best(after.best, node, prefix, b),
    ensures
        ({
            let diffs = impact_of(before, after).best_path_diffs;
            &&& (exists|k: int|
                0 <= k < diffs.len() && (#[trigger] diffs[k]).node == node && diffs[k].prefix
                    == prefix) <==> a != b
            &&& forall|k: int|
                0 <= k < diffs.len() && (#[trigger] diffs[k]).node == node && diffs[k].prefix
                    == prefix ==> {
                    &&& diffs[k].before is Some <==> a is Some
                    &&& diffs[k].after is Some <==> b is Some
                    &&& a is Some ==> diffs[k].before == Some(route_label(a->0))
                    &&& b is Some ==> diffs[k].after == Some(route_label(b->0))
                }
        }),
{
    let key = (node, prefix);
    lemma_gives_best(before.best, node, prefix, a);
    lemma_gives_best(after.best, node, prefix, b);
    law_impact_is_complete(before, after, key);
    let x = best_by_key(before.best);
    let y = best_by_key(after.best);
    let p = |k: (Chars, Chars)| lookup(x, k) != lookup(y, k);
    let f = keys_of_both(x, y).filter(p);
    let diffs = impact_of(before, after).best_path_diffs;
    assert forall|k: int|
        0 <= k < diffs.len() && (#[trigger] diffs[k]).node == node && diffs[k].prefix
            == prefix implies {
        &&& diffs[k].before is Some <==> a is Some
        &&& diffs[k].after is Some <==> b is Some
        &&& a is Some ==> diffs[k].before == Some(route_label(a->0))
        &&& b is Some ==> diffs[k].after == Some(route_label(b->0))
    } by {
        assert(f[k] == key);
    }
}

/// An impact compares what stands advertised session by session. There is a difference exactly
/// where the two results give different routes for a session and a prefix, or only one of them
/// gives one: new, withdrawn or modified. It says both in words and names the two ends.
pub proof fn law_impact_compares_publications(
    before: RunResultView,
    after: RunResultView,
    session: Chars,
    prefix: Chars,
    a: Option<AdvertisedRouteView>,
    b: Option<AdvertisedRouteView>,
)
    requires
        gives_advertised(before.advertised, session, prefix, a),
        gives_advertised(after.advertised, session, prefix, b),
    ensures
        ({
            let diffs = impact_of(before, after).publication_diffs;
            let same = (a is None && b is None) || (a is Some && b is Some && (a->0).route == (
            b->0).route);
            &&& (exists|k: int|
                0 <= k < diffs.len() && (#[trigger] diffs[k]).session == session && diffs[k].prefix
                    == prefix) <==> !same
            &&& forall|k: int|
                0 <= k < diffs.len() && (#[trigger] diffs[k]).session == session && diffs[k].prefix
                    == prefix ==> {
                    let d = diffs[k];
                    &&& d.change == (if a is None {
                        "new"@
                    } else if b is None {
                        "withdrawn"@
                    } else {
                        "modified"@
                    })
                    &&& d.before == (if a is Some {
                        Some(route_label((a->0).route))
                    } else {
                        None
                    })
                    &&& d.after == (if b is Some {
                        Some(route_label((b->0).route))
                    } else {
                        None
                    })
                    &&& b is Some ==> d.from == (b->0).from && d.to == (b->0).to
                    &&& b is None ==> d.from == (a->0).from && d.to == (a->0).to
                }
        }),
{
    let key = (session, prefix);
    lemma_gives_advertised(before.advertised, session, prefix, a);
    lemma_gives_advertised(after.advertised, session, prefix, b);
    law_impact_is_complete(before, after, key);
    lemma_keys_finite(before);
    lemma_keys_finite(after);
    let x = advertised_by_key(before.advertised);
    let y = advertised_by_key(after.advertised);
    let p = |k: (Chars, Chars)| route_of(lookup(x, k)) != route_of(lookup(y, k));
    let f = keys_of_both(x, y).filter(p);
    let diffs = impact_of(before, after).publication_diffs;
    lemma_differing_keys(x, y, p, key);
    assert forall|k: int|
        0 <= k < diffs.len() && (#[trigger] diffs[k]).session == session && diffs[k].prefix
            == prefix implies {
        let d = diffs[k];
        &&& d.change == (if a is None {
            "new"@
        } else if b is None {
            "withdrawn"@
        } else {
            "modified"@
        })
        &&& d.before == (if a is Some { Some(route_label((a->0).route)) } else { None })
        &&& d.after == (if b is Some { Some(route_label((b->0).route)) } else { None })
        &&& b is Some ==> d.from == (b->0).from && d.to == (b->0).to
        &&& b is None ==> d.from == (a->0).from && d.to == (a->0).to
    } by {
        assert(f[k] == key);
        assert(f.contains(f[k]));
    }
}

/// How often a node took part in the convergence of a prefix: once for each of its steps that
/// name the prefix and, if it ends with a best route for the prefix, once for each of its
/// restarts.
pub open spec fn takes_part(
    steps: Seq<StepView>,
    best: Seq<BestEntryView>,
    node: Chars,
    prefix: Chars,
) -> nat {
    let named = steps.filter(|s: StepView| s.node == node && s.prefix == Some(prefix)).len();
    let restarts = steps.filter(|s: StepView| s.node == node && s.kind == StepKind::Restart).len();
    if exists|i: int|
        0 <= i < best.len() && (#[trigger] best[i]).node == node && best[i].prefix == prefix {
        named + restarts
    } else {
        named
    }
}

proof fn lemma_best_prefixes(best: Seq<BestEntryView>, node: Chars, prefix: Chars)
    ensures
        best_prefixes(best, node).finite(),
        best_prefixes(best, node).contains(prefix) <==> exists|i: int|
            0 <= i < best.len() && (#[trigger] best[i]).node == node && best[i].prefix == prefix,
    decreases best.len(),
{
    if best.len() > 0 {
        let init = best.drop_last();
        lemma_best_prefixes(init, node, prefix);
        assert(best[best.len() - 1] == best.last());
        if best_prefixes(init, node).contains(prefix) {
            let i = choose|i: int|
                0 <= i < init.len() && (#[trigger] init[i]).node == node && init[i].prefix
                    == prefix;
            assert(best[i] == init[i]);
        }
        if exists|i: int|
            0 <= i < best.len() && (#[trigger] best[i]).node == node && best[i].prefix == prefix {
            let i = choose|i: int|
                0 <= i < best.len() && (#[trigger] best[i]).node == node && best[i].prefix
                    == prefix;
            if i < init.len() {
                assert(init[i] == best[i]);
            }
        }
    }
}

proof fn lemma_bumped_all(
    counts: Map<(Chars, Chars), usize>,
    node: Chars,
    prefixes: Seq<Chars>,
    k: (Chars, Chars),
)
    requires
        prefixes.no_duplicates(),
    ensures
        count_of(bumped_all(counts, node, prefixes), k) == (if k.0 == node && prefixes.contains(
            k.1,
        ) {
            more(count_of(counts, k))
        } else {
            count_of(counts, k)
        }),
    decreases prefixes.len(),
{
    if prefixes.len() > 0 {
        let init = prefixes.drop_last();
        assert(init.no_duplicates());
        lemma_bumped_all(counts, node, init, k);
        assert(prefixes[prefixes.len() - 1] == prefixes.last());
        if init.contains(k.1) {
            let i = choose|i: int| 0 <= i < init.len() && init[i] == k.1;
            assert(prefixes[i] == k.1);
        }
        if prefixes.contains(k.1) && k.1 != prefixes.last() {
            let i = choose|i: int| 0 <= i < prefixes.len() && prefixes[i] == k.1;
            assert(init[i] == k.1);
        }
    }
}

/// The transitions count how often a node took part in the convergence of a prefix, as far as
/// numbers go.
pub proof fn law_transitions_count_steps(
    steps: Seq<StepView>,
    best: Seq<BestEntryView>,
    node: Chars,
    prefix: Chars,
)
    ensures
        ({
            let n = takes_part(steps, best, node, prefix);
            count_of(transitions(steps, best), (node, prefix)) == (if n > usize::MAX {
                usize::MAX as int
            } else {
                n as int
            })
        }),
    decreases steps.len(),
{
    let k = (node, prefix);
    let by_prefix = |s: StepView| s.node == node && s.prefix == Some(prefix);
    let by_restart = |s: StepView| s.node == node && s.kind == StepKind::Restart;
    if steps.len() == 0 {
        reveal(Seq::filter);
    } else {
        let init = steps.drop_last();
        let step = steps.last();
        law_transitions_count_steps(init, best, node, prefix);
        assert(steps =~= init.push(step));
        init.lemma_filter_push(step, by_prefix);
        init.lemma_filter_push(step, by_restart);
        let known = best_prefixes(best, step.node);
        let keys = in_order::<String>(known);
        lemma_best_prefixes(best, step.node, prefix);
        crate::ordmap::lemma_in_order_exists::<String>(known);
        assert(keys.no_duplicates()) by {
            assert forall|x: int, y: int| 0 <= x < y < keys.len() implies keys[x] != keys[y] by {
                assert(<String as crate::ordmap::Key>::lt(keys[x], keys[y]));
                crate::text::lemma_str_lt_irreflexive(keys[x]);
            }
        }
        assert(keys.contains(prefix) == keys.to_set().contains(prefix));
        let before = transitions(init, best);
        let direct = match step.prefix {
            Some(p) => bumped(before, (step.node, p)),
            None => before,
        };
        lemma_bumped_all(direct, step.node, keys, k);
    }
}

/// What an impact calls affected is exactly what its differences name; and the trace has
/// changed exactly where the trace fingerprints differ.
pub proof fn law_impact_affects_what_differs(
    before: RunResultView,
    after: RunResultView,
    x: Chars,
)
    ensures
        ({
            let i = impact_of(before, after);
            &&& i.affected_nodes.contains(x) <==> {
                ||| exists|k: int|
                    0 <= k < i.best_path_diffs.len() && (#[trigger] i.best_path_diffs[k]).node == x
                ||| exists|k: int|
                    0 <= k < i.publication_diffs.len() && (
                    #[trigger] i.publication_diffs[k]).from == x
                ||| exists|k: int|
                    0 <= k < i.intermediate_diffs.len() && (
                    #[trigger] i.intermediate_diffs[k]).node == x
            }
            &&& i.affected_prefixes.contains(x) <==> {
                ||| exists|k: int|
                    0 <= k < i.best_path_diffs.len() && (#[trigger] i.best_path_diffs[k]).prefix
                        == x
                ||| exists|k: int|
                    0 <= k < i.publication_diffs.len() && (
                    #[trigger] i.publication_diffs[k]).prefix == x
                ||| exists|k: int|
                    0 <= k < i.intermediate_diffs.len() && (
                    #[trigger] i.intermediate_diffs[k]).prefix == x
            }
            &&& i.trace_changed <==> before.trace_fingerprint != after.trace_fingerprint
        }),
{
    let i = impact_of(before, after);
    law_impact_names_all_affected(before, after);
    let n1 = i.best_path_diffs.map_values(|d: PathDiffView| d.node);
    let n2 = i.publication_diffs.map_values(|d: PublicationDiffView| d.from);
    let n3 = i.intermediate_diffs.map_values(|d: PathDiffView| d.node);
    let p1 = i.best_path_diffs.map_values(|d: PathDiffView| d.prefix);
    let p2 = i.publication_diffs.map_values(|d: PublicationDiffView| d.prefix);
    let p3 = i.intermediate_diffs.map_values(|d: PathDiffView| d.prefix);
    lemma_all_noted(Seq::empty(), n1, x);
    lemma_all_noted(all_noted(Seq::empty(), n1), n2, x);
    lemma_all_noted(all_noted(all_noted(Seq::empty(), n1), n2), n3, x);
    lemma_all_noted(Seq::empty(), p1, x);
    lemma_all_noted(all_noted(Seq::empty(), p1), p2, x);
    lemma_all_noted(all_noted(all_noted(Seq::empty(), p1), p2), p3, x);
    if n1.contains(x) {
        let k = choose|k: int| 0 <= k < n1.len() && n1[k] == x;
        assert(i.best_path_diffs[k].node == x);
    }
    if n2.contains(x) {
        let k = choose|k: int| 0 <= k < n2.len() && n2[k] == x;
        assert(i.publication_diffs[k].from == x);
    }
    if n3.contains(x) {
        let k = choose|k: int| 0 <= k < n3.len() && n3[k] == x;
        assert(i.intermediate_diffs[k].node == x);
    }
    if p1.contains(x) {
        let k = choose|k: int| 0 <= k < p1.len() && p1[k] == x;
        assert(i.best_path_diffs[k].prefix == x);
    }
    if p2.contains(x) {
        let k = choose|k: int| 0 <= k < p2.len() && p2[k] == x;
        assert(i.publication_diffs[k].prefix == x);
    }
    if p3.contains(x) {
        let k = choose|k: int| 0 <= k < p3.len() && p3[k] == x;
        assert(i.intermediate_diffs[k].prefix == x);
    }
}

proof fn lemma_transitions_finite(steps: Seq<StepView>, best: Seq<BestEntryView>)
    ensures
        transitions(steps, best).dom().finite(),
    decreases steps.len(),
{
    if steps.len() > 0 {
        let step = steps.last();
        let before = transitions(steps.drop_last(), best);
        lemma_transitions_finite(steps.drop_last(), best);
        let direct = match step.prefix {
            Some(p) => bumped(before, (step.node, p)),
            None => before,
        };
        lemma_bumped_finite(direct, step.node, in_order::<String>(best_prefixes(best, step.node)));
    }
}

proof fn lemma_bumped_finite(
    counts: Map<(Chars, Chars), usize>,
    node: Chars,
    prefixes: Seq<Chars>,
)
    requires
        counts.dom().finite(),
    ensures
        bumped_all(counts, node, prefixes).dom().finite(),
    decreases prefixes.len(),
{
    if prefixes.len() > 0 {
        lemma_bumped_finite(counts, node, prefixes.drop_last());
    }
}

/// The intermediate differences of an impact are those in how often nodes took part in the
/// convergence of prefixes, both numbers given in words.
pub proof fn law_impact_compares_convergence(
    before: RunResultView,
    after: RunResultView,
    node: Chars,
    prefix: Chars,
)
    requires
        takes_part(before.steps, before.best, node, prefix) <= usize::MAX,
        takes_part(after.steps, after.best, node, prefix) <= usize::MAX,
    ensures
        ({
            let diffs = impact_of(before, after).intermediate_diffs;
            let a = takes_part(before.steps, before.best, node, prefix) as int;
            let b = takes_part(after.steps, after.best, node, prefix) as int;
            &&& (exists|k: int|
                0 <= k < diffs.len() && (#[trigger] diffs[k]).node == node && diffs[k].prefix
                    == prefix) <==> a != b
            &&& forall|k: int|
                0 <= k < diffs.len() && (#[trigger] diffs[k]).node == node && diffs[k].prefix
                    == prefix ==> {
                    &&& diffs[k].before == Some(decimal(a) + " convergence step(s)"@)
                    &&& diffs[k].after == Some(decimal(b) + " convergence step(s)"@)
                }
        }),
{
    let key = (node, prefix);
    law_transitions_count_steps(before.steps, before.best, node, prefix);
    law_transitions_count_steps(after.steps, after.best, node, prefix);
    lemma_transitions_finite(before.steps, before.best);
    lemma_transitions_finite(after.steps, after.best);
    let x = transitions(before.steps, before.best);
    let y = transitions(after.steps, after.best);
    let p = |k: (Chars, Chars)| count_of(x, k) != count_of(y, k);
    let f = keys_of_both(x, y).filter(p);
    let diffs = impact_of(before, after).intermediate_diffs;
    lemma_differing_keys(x, y, p, key);
    if f.contains(key) {
        let j = choose|j: int| 0 <= j < f.len() && f[j] == key;
        assert(diffs[j].node == node && diffs[j].prefix == prefix);
    }
    assert forall|k: int|
        0 <= k < diffs.len() && (#[trigger] diffs[k]).node == node && diffs[k].prefix
            == prefix implies f[k] == key && f.contains(key) by {
        assert(f[k] == key);
    }
}

// ---------- what is valid, and what is answered ----------

/// Whether a session has both its ends and takes time.
pub open spec fn session_holds(input: ScenarioInputView, i: int) -> bool {
    let s = input.sessions[i];
    input.nodes.dom().contains(s.local) && input.nodes.dom().contains(s.remote) && s.delay >= 1
}

/// Whether what an event names is there.
pub open spec fn event_holds(input: ScenarioInputView, i: int) -> bool {
    match input.events[i] {
        EventSpecView::Restart { node, .. } => input.nodes.dom().contains(node),
        EventSpecView::Withdraw { announcement, .. } => exists|k: int|
            0 <= k < input.announcements.len() && (#[trigger] input.announcements[k]).id
                == announcement,
    }
}

proof fn lemma_sessions_faulty(nodes: Set<Chars>, sessions: Seq<SessionView>)
    ensures
        sessions_fault(nodes, sessions) is Some <==> exists|i: int|
            0 <= i < sessions.len() && session_fault(nodes, #[trigger] sessions[i]) is Some,
        forall|i: int|
            0 <= i < sessions.len() && session_fault(nodes, #[trigger] sessions[i]) is Some && (
            forall|k: int|
                0 <= k < i ==> session_fault(nodes, #[trigger] sessions[k]) is None)
                ==> sessions_fault(nodes, sessions) == session_fault(nodes, sessions[i]),
    decreases sessions.len(),
{
    if sessions.len() > 0 {
        let init = sessions.drop_last();
        lemma_sessions_faulty(nodes, init);
        assert(sessions[sessions.len() - 1] == sessions.last());
        assert forall|i: int| 0 <= i < init.len() implies #[trigger] init[i] == sessions[i] by {}
        if sessions_fault(nodes, init) is Some {
            let i = choose|i: int|
                0 <= i < init.len() && session_fault(nodes, #[trigger] init[i]) is Some;
            assert(session_fault(nodes, sessions[i]) is Some);
        }
        if exists|i: int|
            0 <= i < sessions.len() && session_fault(nodes, #[trigger] sessions[i]) is Some {
            let i = choose|i: int|
                0 <= i < sessions.len() && session_fault(nodes, #[trigger] sessions[i]) is Some;
            if i < init.len() {
                assert(session_fault(nodes, init[i]) is Some);
            }
        }
        assert forall|i: int|
            0 <= i < sessions.len() && session_fault(nodes, #[trigger] sessions[i]) is Some && (
            forall|k: int|
                0 <= k < i ==> session_fault(
                    nodes,
                    #[trigger] sessions[k],
                ) is None) implies sessions_fault(nodes, sessions) == session_fault(
            nodes,
            sessions[i],
        ) by {
            if i < init.len() {
                assert(init[i] == sessions[i]);
                assert forall|k: int| 0 <= k < i implies session_fault(
                    nodes,
                    #[trigger] init[k],
                ) is None by {
                    assert(init[k] == sessions[k]);
                }
            } else {
                if sessions_fault(nodes, init) is Some {
                    let k = choose|k: int|
                        0 <= k < init.len() && session_fault(nodes, #[trigger] init[k]) is Some;
                    assert(session_fault(nodes, sessions[k]) is None);
                }
            }
        }
    }
}

proof fn lemma_announcements_faulty(nodes: Set<Chars>, announcements: Seq<AnnouncementView>)
    ensures
        announcements_fault(nodes, announcements) is Some <==> exists|i: int|
            0 <= i < announcements.len() && !nodes.contains((#[trigger] announcements[i]).node),
    decreases announcements.len(),
{
    if announcements.len() > 0 {
        let init = announcements.drop_last();
        lemma_announcements_faulty(nodes, init);
        assert(announcements[announcements.len() - 1] == announcements.last());
        if announcements_fault(nodes, init) is Some {
            let i = choose|i: int|
                0 <= i < init.len() && !nodes.contains((#[trigger] init[i]).node);
            assert(!nodes.contains(announcements[i].node));
        }
        if exists|i: int|
            0 <= i < announcements.len() && !nodes.contains((#[trigger] announcements[i]).node) {
            let i = choose|i: int|
                0 <= i < announcements.len() && !nodes.contains(
                    (#[trigger] announcements[i]).node,
                );
            if i < init.len() {
                assert(!nodes.contains(init[i].node));
            }
        }
    }
}

proof fn lemma_events_faulty(
    nodes: Set<Chars>,
    announcements: Seq<AnnouncementView>,
    events: Seq<EventSpecView>,
)
    ensures
        events_fault(nodes, announcements, events) is Some <==> exists|i: int|
            0 <= i < events.len() && event_fault(nodes, announcements, #[trigger] events[i])
                is Some,
    decreases events.len(),
{
    if events.len() > 0 {
        let init = events.drop_last();
        lemma_events_faulty(nodes, announcements, init);
        assert(events[events.len() - 1] == events.last());
        if events_fault(nodes, announcements, init) is Some {
            let i = choose|i: int|
                0 <= i < init.len() && event_fault(nodes, announcements, #[trigger] init[i])
                    is Some;
            assert(events[i] == init[i]);
        }
        if exists|i: int|
            0 <= i < events.len() && event_fault(nodes, announcements, #[trigger] events[i])
                is Some {
            let i = choose|i: int|
                0 <= i < events.len() && event_fault(nodes, announcements, #[trigger] events[i])
                    is Some;
            if i < init.len() {
                assert(init[i] == events[i]);
            }
        }
    }
}

/// A scenario is valid exactly where every session has both its ends and takes at least one
/// tick, every announcement is made at a node, every restart is that of a node, and every
/// withdrawal that of an announcement.
pub proof fn law_valid_means_everything_is_there(input: ScenarioInputView)
    ensures
        fault(input) is None <==> {
            &&& forall|i: int|
                #![trigger input.sessions[i]]
                0 <= i < input.sessions.len() ==> session_holds(input, i)
            &&& forall|i: int|
                0 <= i < input.announcements.len() ==> input.nodes.dom().contains(
                    (#[trigger] input.announcements[i]).node,
                )
            &&& forall|i: int|
                #![trigger input.events[i]]
                0 <= i < input.events.len() ==> event_holds(input, i)
        },
{
    let nodes = input.nodes.dom();
    lemma_sessions_faulty(nodes, input.sessions);
    lemma_announcements_faulty(nodes, input.announcements);
    lemma_events_faulty(nodes, input.announcements, input.events);
    assert forall|i: int|
        #![trigger input.sessions[i]]
        0 <= i < input.sessions.len() implies (session_holds(input, i) <==> session_fault(
        nodes,
        input.sessions[i],
    ) is None) by {}
    assert forall|i: int|
        #![trigger input.events[i]]
        0 <= i < input.events.len() implies (event_holds(input, i) <==> event_fault(
        nodes,
        input.announcements,
        input.events[i],
    ) is None) by {}
}

/// The first session that is at fault is the fault of a scenario, and the message says what is
/// wrong with it: its local end first, then its remote end, then its delay.
pub proof fn law_first_faulty_session_is_named(input: ScenarioInputView, i: int)
    requires
        0 <= i < input.sessions.len(),
        !session_holds(input, i),
        forall|k: int| #![trigger input.sessions[k]] 0 <= k < i ==> session_holds(input, k),
    ensures
        ({
            let s = input.sessions[i];
            fault(input) == Some(
                if !input.nodes.dom().contains(s.local) {
                    "session "@ + s.id + " references unknown local node "@ + s.local
                } else if !input.nodes.dom().contains(s.remote) {
                    "session "@ + s.id + " references unknown remote node "@ + s.remote
                } else {
                    "session "@ + s.id + " delay must be >= 1 tick"@
                },
            )
        }),
{
    let nodes = input.nodes.dom();
    lemma_sessions_faulty(nodes, input.sessions);
    assert(session_fault(nodes, input.sessions[i]) is Some);
    assert forall|k: int| 0 <= k < i implies session_fault(
        nodes,
        #[trigger] input.sessions[k],
    ) is None by {
        assert(session_holds(input, k));
    }
}

/// A preview shows the branch that the edits make of the base, under the given name or one
/// made from that of the base, the simulation of that branch, and its impact against the run
/// of the base. It is refused as a bad request where the edits or the branch are at fault.
pub proof fn law_preview_shows_the_branch(
    base: ScenarioInputView,
    edits: EditSetView,
    name: Option<Chars>,
    base_run: Option<RunResultView>,
)
    ensures
        ({
            let called = if name is Some { name->0 } else { base.name + "-branch"@ };
            let first = if base_run is Some { base_run->0 } else { simulation(base) };
            let made = branched(base, edits, called);
            let answer = previewed(base, edits, name, base_run);
            &&& answer is Ok <==> made is Ok && fault((made->Ok_0).scenario) is None
            &&& answer matches Ok(p) ==> {
                &&& p.preview == made->Ok_0
                &&& p.preview.scenario.name == called
                &&& p.result == simulation(p.preview.scenario)
                &&& p.impact == impact_of(first, p.result)
            }
            &&& answer matches Err(e) ==> {
                &&& e.status == 400
                &&& made is Err ==> e.message == made->Err_0
                &&& made is Ok ==> fault((made->Ok_0).scenario) == Some(e.message)
            }
        }),
{
    crate::scenario::law_branch_keeps_base(base, edits, branch_name_or(base, name));
}

/// A commit publishes the branch that the edits make of the base, with its simulation and its
/// identity, exactly where the branch is without fault and its run conclusive. What is at
/// fault is a bad request; what is inconclusive is in conflict.
pub proof fn law_commit_publishes_the_branch(
    base: ScenarioInputView,
    edits: EditSetView,
    name: Chars,
)
    ensures
        ({
            let made = branched(base, edits, name);
            let branch = (made->Ok_0).scenario;
            let good = made is Ok && fault(branch) is None;
            let answer = committed(base, edits, name);
            &&& answer is Ok <==> good && simulation(branch).status != RunStatus::Inconclusive
            &&& answer matches Ok(c) ==> {
                &&& c.preview == made->Ok_0
                &&& c.result == simulation(branch)
                &&& c.identity == identity(branch)
            }
            &&& answer matches Err(e) ==> {
                &&& e.status == (if good { 409int } else { 400 })
                &&& made is Err ==> e.message == made->Err_0
                &&& made is Ok && !good ==> fault(branch) == Some(e.message)
            }
        }),
{
}

/// An upload is stored under its identity exactly where it is without fault, and is a bad
/// request otherwise.
pub proof fn law_upload_is_stored_if_valid(input: ScenarioInputView)
    ensures
        created(input) is Ok <==> fault(input) is None,
        created(input) matches Ok(i) ==> i == identity(input),
        created(input) matches Err(e) ==> e.status == 400 && fault(input) == Some(e.message),
        identity(input).id == identity(input).fingerprint.take(16),
{
}

/// Two drafts are compared against their parent where they have the same one, whichever is the
/// left; otherwise against the left one.
pub proof fn law_drafts_share_a_base(
    left: ScenarioRowView,
    right: ScenarioRowView,
    left_id: Chars,
    right_id: Chars,
)
    ensures
        ({
            let shared = left.parent_id is Some && left.parent_id == right.parent_id;
            let base = common_base(left_id, Some(left), Some(right));
            &&& shared ==> Some(base) == left.parent_id
            &&& shared ==> base == common_base(right_id, Some(right), Some(left))
            &&& !shared ==> base == left_id
            &&& common_base(left_id, None, Some(right)) == left_id
            &&& common_base(left_id, Some(left), None) == left_id
        }),
{
}

/// Hyphens stand exactly where the label had hyphens or spaces, and nothing else changes.
pub proof fn law_hyphens_replace_spaces(s: Chars, i: int)
    requires
        0 <= i < s.len(),
    ensures
        hyphenated(s).len() == s.len(),
        hyphenated(s)[i] != ' ',
        s[i] != ' ' ==> hyphenated(s)[i] == s[i],
        s[i] == ' ' ==> hyphenated(s)[i] == '-',
{
}

/// No two verdicts have the same name.
pub proof fn law_status_names_differ(a: RunStatus, b: RunStatus)
    ensures
        status_name(a) == status_name(b) ==> a == b,
{
    reveal_strlit("stable");
    reveal_strlit("oscillation");
    reveal_strlit("inconclusive");
    assert("stable"@[0] != "oscillation"@[0]);
    assert("stable"@[0] != "inconclusive"@[0]);
    assert("oscillation"@[0] != "inconclusive"@[0]);
}

/// A scenario is known by everything that it says and by the version of the engine. Its id is
/// the beginning of its fingerprint.
pub proof fn law_identity_covers_the_scenario(
    input: ScenarioInputView,
    key: Chars,
    value: JsonView,
)
    ensures
        identity(input).id == identity(input).fingerprint.take(16),
        identity(input).fingerprint == fingerprint(identity_json(input)),
        has_member(ScenarioInput::json(input), key, value) ==> has_member(
            identity_json(input),
            key,
            value,
        ),
        has_member(
            identity_json(input),
            "engine_version"@,
            JsonView::Number(decimal(ENGINE_VERSION as int)),
        ),
        has_size(identity_json(input), 8),
{
    crate::encode::law_scenario_is_written_whole(input);
    let members = ScenarioInput::json(input)->Object_0;
    crate::json::lemma_pushed(members, ("engine_version"@, u32::json(ENGINE_VERSION)));
}

/// Routes that differ in their local preference or in the MED that counts are worded
/// differently; and the words show the path and the communities.
pub proof fn law_words_show_the_route(a: RouteView, b: RouteView)
    ensures
        (b == (RouteView { local_pref: b.local_pref, ..a }) && a.local_pref != b.local_pref)
            ==> route_label(a) != route_label(b),
        (b == (RouteView { med: b.med, ..a }) && a.med_or_zero() != b.med_or_zero())
            ==> route_label(a) != route_label(b),
        within(join(decimals(a.as_path), " "@), route_label(a)),
        within(join(a.communities, ","@), route_label(a)),
        path_text(Some(a)) == Some(route_label(a)),
        path_text(None) is None,
{
    let (pa, pb) = (join(decimals(a.as_path), " "@), join(decimals(b.as_path), " "@));
    let (ca, cb) = (join(a.communities, ","@), join(b.communities, ","@));
    let (la, lb) = (decimal(a.local_pref as int), decimal(b.local_pref as int));
    let (ma, mb) = (decimal(a.med_or_zero() as int), decimal(b.med_or_zero() as int));
    crate::text::law_decimal_reads_back(a.local_pref as int, b.local_pref as int);
    crate::text::law_decimal_reads_back(a.med_or_zero() as int, b.med_or_zero() as int);
    let (a1, b1) = ("[lp="@ + la + ", med="@, "[lp="@ + lb + ", med="@);
    let (a2, b2) = (a1 + ma, b1 + mb);
    let (a3, b3) = (a2 + ", path="@, b2 + ", path="@);
    let (a4, b4) = (a3 + pa, b3 + pb);
    let (a5, b5) = (a4 + ", comm="@, b4 + ", comm="@);
    let (a6, b6) = (a5 + ca, b5 + cb);
    assert(route_label(a) == a6 + "]"@);
    assert(route_label(b) == b6 + "]"@);
    if la != lb && ma == mb {
        lemma_apart(la, lb, "[lp="@);
        lemma_apart("[lp="@ + la, "[lp="@ + lb, ", med="@);
        lemma_apart(a1, b1, ma);
    }
    if la == lb && ma != mb {
        lemma_apart(ma, mb, a1);
    }
    if a2 != b2 && pa == pb && ca == cb {
        lemma_apart(a2, b2, ", path="@);
        lemma_apart(a3, b3, pa);
        lemma_apart(a4, b4, ", comm="@);
        lemma_apart(a5, b5, ca);
        lemma_apart(a6, b6, "]"@);
    }
    lemma_within_self(pa);
    lemma_within_ends(pa, a3, pa);
    lemma_within_ends(pa, a4, ", comm="@);
    lemma_within_ends(pa, a5, ca);
    lemma_within_ends(pa, a6, "]"@);
    lemma_within_self(ca);
    lemma_within_ends(ca, a5, ca);
    lemma_within_ends(ca, a6, "]"@);
}

} // verus!
