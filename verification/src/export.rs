//! What a node publishes: export policy, split horizon and the UPDATEs and WITHDRAWs
//! that follow from them.

use crate::evidence::{
    ExportRecord, ExportRecordView, SuppressionEvidence, SuppressionEvidenceView,
};
use crate::model::{
    Decision, Provenance, Route, RouteView, Rule, RuleView, Session, SessionKind, SessionView,
};
use crate::policy::{evaluate, evaluation, PolicyVerdict, PolicyVerdictView, Verdict};
use crate::queue::{carried, schedule_send, scheduled, Scheduled, ScheduledView};
use crate::rib::{find_link, link, lookup, outgoing, outgoing_ids, RtNode, RtNodeView};
use crate::text::Chars;
use crate::value::Value;
use vstd::prelude::*;

verus! {

// ---------- one session ----------

/// What a node would publish on a session.
pub struct Offer {
    pub published: bool,
    pub reason: String,
    pub policy: Option<PolicyVerdict>,
    pub route: Option<Route>,
}

/// What a [`Offer`] holds.
#[verifier::ext_equal]
pub struct OfferView {
    pub published: bool,
    pub reason: Chars,
    pub policy: Option<PolicyVerdictView>,
    pub route: Option<RouteView>,
}

impl View for Offer {
    type V = OfferView;

    open spec fn view(&self) -> OfferView {
        OfferView {
            published: self.published,
            reason: self.reason.deep_view(),
            policy: self.policy.deep_view(),
            route: self.route.deep_view(),
        }
    }
}

impl DeepView for Offer {
    type V = OfferView;

    open spec fn deep_view(&self) -> OfferView {
        self@
    }
}

/// A path with copies of an AS number in front of it.
pub open spec fn prepended_path(path: Seq<u32>, asn: u32, count: nat) -> Seq<u32> {
    Seq::new(count, |i: int| asn) + path
}

/// A route as it leaves over a session. The local AS is put in front of the AS_PATH once
/// on eBGP, and as many times more as the policy asks for.
pub open spec fn outbound(
    route: RouteView,
    kind: SessionKind,
    own_as: u32,
    count: u32,
) -> RouteView {
    RouteView {
        as_path: prepended_path(
            route.as_path,
            own_as,
            match kind {
                SessionKind::EBgp => 1 + count as nat,
                SessionKind::IBgp => count as nat,
            },
        ),
        ..route
    }
}

/// What a node publishes of its best route on a session: nothing without a best route,
/// nothing over iBGP that was learned over iBGP, and otherwise what the export policy
/// lets through.
pub open spec fn offered(
    best: Option<RouteView>,
    sess: SessionView,
    own_as: u32,
    rules: Seq<RuleView>,
) -> OfferView {
    match best {
        None => OfferView {
            published: false,
            reason: "no-best-path"@,
            policy: None,
            route: None,
        },
        Some(b) => if sess.kind == SessionKind::IBgp && b.provenance == Provenance::IBgp {
            OfferView {
                published: false,
                reason: "ibgp-split-horizon"@,
                policy: None,
                route: None,
            }
        } else {
            let (verdict, mutated, count) = evaluation(rules, b, sess.remote, Decision::Accept);
            match verdict.decision {
                Verdict::Accept => OfferView {
                    published: true,
                    reason: "exported"@,
                    policy: Some(verdict),
                    route: Some(outbound(mutated, sess.kind, own_as, count)),
                },
                Verdict::Reject => OfferView {
                    published: false,
                    reason: "export-rejected: "@ + verdict.reason,
                    policy: Some(verdict),
                    route: None,
                },
            }
        },
    }
}

fn prepend(path: &Vec<u32>, asn: u32, count: u64) -> (r: Vec<u32>)
    ensures
        r@ == prepended_path(path@, asn, count as nat),
{
    let mut out: Vec<u32> = Vec::new();
    let mut i: u64 = 0;
    while i < count
        invariant
            i <= count,
            out@ == Seq::new(i as nat, |k: int| asn),
        decreases count - i,
    {
        let ghost before = out@;
        out.push(asn);
        assert(out@ =~= Seq::new((i + 1) as nat, |k: int| asn));
        i += 1;
    }
    let ghost front = out@;
    let mut j: usize = 0;
    assert(front + path@.take(0) =~= front);
    while j < path.len()
        invariant
            j <= path@.len(),
            out@ == front + path@.take(j as int),
        decreases path.len() - j,
    {
        out.push(path[j]);
        assert(front + path@.take(j + 1) =~= (front + path@.take(j as int)).push(path@[j as int]));
        j += 1;
    }
    assert(path@.take(j as int) =~= path@);
    out
}

/// Decides what a node publishes of its best route on a session.
pub fn offer(best: &Option<Route>, sess: &Session, own_as: u32, rules: &Vec<Rule>) -> (r: Offer)
    ensures
        r@ == offered(best.deep_view(), sess@, own_as, rules.deep_view()),
{
    match best {
        None => Offer {
            published: false,
            reason: "no-best-path".to_owned(),
            policy: None,
            route: None,
        },
        Some(b) => {
            if sess.kind == SessionKind::IBgp && b.provenance == Provenance::IBgp {
                return Offer {
                    published: false,
                    reason: "ibgp-split-horizon".to_owned(),
                    policy: None,
                    route: None,
                };
            }
            let (verdict, mutated, count) = evaluate(
                rules,
                b,
                sess.remote.as_str(),
                Decision::Accept,
            );
            match verdict.decision {
                Verdict::Accept => {
                    let copies: u64 = match sess.kind {
                        SessionKind::EBgp => 1 + count as u64,
                        SessionKind::IBgp => count as u64,
                    };
                    let ghost sent = outbound(mutated@, sess.kind, own_as, count);
                    let as_path = prepend(&mutated.as_path, own_as, copies);
                    let route = Route { as_path, ..mutated };
                    proof {
                        assert(mutated.as_path.deep_view() =~= mutated.as_path@);
                        assert(route.as_path.deep_view() =~= route.as_path@);
                        assert(route@ =~= sent);
                    }
                    Offer {
                        published: true,
                        reason: "exported".to_owned(),
                        policy: Some(verdict),
                        route: Some(route),
                    }
                },
                Verdict::Reject => Offer {
                    published: false,
                    reason: "export-rejected: ".to_owned().concat(verdict.reason.as_str()),
                    policy: Some(verdict),
                    route: None,
                },
            }
        },
    }
}

/// The advertisements of a node, the queue and the evidence while it exports.
#[verifier::ext_equal]
pub struct Exporting {
    pub advertised: Map<(Chars, Chars), Option<RouteView>>,
    pub queue: Seq<ScheduledView>,
    pub records: Seq<ExportRecordView>,
}

/// What was last advertised on a session for a prefix and not withdrawn since.
pub open spec fn standing(
    advertised: Map<(Chars, Chars), Option<RouteView>>,
    sid: Chars,
    prefix: Chars,
) -> Option<RouteView> {
    match lookup(advertised, (sid, prefix)) {
        Some(marker) => marker,
        None => None,
    }
}

/// Why no UPDATE is sent on a session, where none is.
pub open spec fn suppression(
    offer: OfferView,
    previous: Option<RouteView>,
    has_best: bool,
    sid: Chars,
) -> Seq<SuppressionEvidenceView> {
    if offer.published {
        if previous == offer.route {
            seq![
                SuppressionEvidenceView {
                    session: sid,
                    reason: "unchanged"@,
                    detail: "advertised route identical to last UPDATE: no message sent"@,
                },
            ]
        } else {
            Seq::empty()
        }
    } else if previous is Some {
        seq![
            SuppressionEvidenceView {
                session: sid,
                reason: "withdraw-scheduled"@,
                detail: "previous UPDATE withdrawn ("@ + offer.reason + ")"@,
            },
        ]
    } else if has_best {
        seq![
            SuppressionEvidenceView {
                session: sid,
                reason: offer.reason,
                detail: "route never advertised on this session; no UPDATE emitted"@,
            },
        ]
    } else {
        Seq::empty()
    }
}

/// Whether an offer makes a message: an UPDATE that differs from what stands advertised,
/// or a WITHDRAW of what stands advertised.
pub open spec fn speaks(offer: OfferView, previous: Option<RouteView>) -> bool {
    if offer.published {
        previous != offer.route
    } else {
        previous is Some
    }
}

/// The export of a best route on one session.
pub open spec fn exported_on(
    e: Exporting,
    best: Option<RouteView>,
    sess: SessionView,
    sid: Chars,
    prefix: Chars,
    own_as: u32,
    rules: Seq<RuleView>,
    now: u64,
) -> Exporting {
    let offer = offered(best, sess, own_as, rules);
    let previous = standing(e.advertised, sid, prefix);
    Exporting {
        advertised: if offer.published && !speaks(offer, previous) {
            e.advertised
        } else {
            e.advertised.insert((sid, prefix), offer.route)
        },
        queue: if speaks(offer, previous) {
            scheduled(e.queue, carried(sess, prefix, offer.route, now))
        } else {
            e.queue
        },
        records: e.records.push(
            ExportRecordView {
                session: sid,
                to: sess.remote,
                prefix,
                published: offer.published,
                reason: offer.reason,
                policy: offer.policy,
                loop_evidence: None,
                suppressed: suppression(offer, previous, best is Some, sid),
                route: offer.route,
            },
        ),
    }
}

fn suppress(offer: &Offer, previous: &Option<Route>, has_best: bool, sid: &String) -> (r: Vec<
    SuppressionEvidence,
>)
    ensures
        r.deep_view() == suppression(offer@, previous.deep_view(), has_best, sid@),
{
    let mut out: Vec<SuppressionEvidence> = Vec::new();
    if offer.published {
        if previous.same(&offer.route) {
            out.push(
                SuppressionEvidence {
                    session: sid.clone(),
                    reason: "unchanged".to_owned(),
                    detail: "advertised route identical to last UPDATE: no message sent".to_owned(),
                },
            );
        }
    } else if previous.is_some() {
        out.push(
            SuppressionEvidence {
                session: sid.clone(),
                reason: "withdraw-scheduled".to_owned(),
                detail: "previous UPDATE withdrawn (".to_owned().concat(
                    offer.reason.as_str(),
                ).concat(")"),
            },
        );
    } else if has_best {
        out.push(
            SuppressionEvidence {
                session: sid.clone(),
                reason: offer.reason.clone(),
                detail: "route never advertised on this session; no UPDATE emitted".to_owned(),
            },
        );
    }
    assert(out.deep_view() =~= suppression(offer@, previous.deep_view(), has_best, sid@));
    out
}

fn export_on(
    rt: &mut RtNode,
    queue: &mut Vec<Scheduled>,
    best: &Option<Route>,
    sess: &Session,
    sid: &String,
    prefix: &String,
    now: u64,
) -> (r: ExportRecord)
    ensures
        ({
            let e = exported_on(
                Exporting {
                    advertised: old(rt)@.advertised,
                    queue: old(queue).deep_view(),
                    records: Seq::empty(),
                },
                best.deep_view(),
                sess@,
                sid@,
                prefix@,
                old(rt)@.spec.asn,
                old(rt)@.spec.policy.export,
                now,
            );
            &&& final(rt)@ == RtNodeView { advertised: e.advertised, ..old(rt)@ }
            &&& final(queue).deep_view() == e.queue
            &&& seq![r@] == e.records
        }),
{
    let ghost before = rt@;
    let own_as = rt.spec.asn;
    let offer = offer(best, sess, own_as, &rt.spec.policy.export);
    let key = (sid.clone(), prefix.clone());
    assert(key.deep_view() == (sid@, prefix@));
    let previous: Option<Route> = match rt.advertised.get(&key) {
        Some(marker) => marker.copy(),
        None => None,
    };
    let suppressed = suppress(&offer, &previous, best.is_some(), sid);
    let unchanged = offer.published && previous.same(&offer.route);
    let speaking = if offer.published {
        !unchanged
    } else {
        previous.is_some()
    };
    if speaking {
        schedule_send(queue, sess, prefix.clone(), offer.route.copy(), now);
    }
    if !unchanged {
        rt.advertised.insert(key, offer.route.copy());
    }
    let record = ExportRecord {
        session: sid.clone(),
        to: sess.remote.clone(),
        prefix: prefix.clone(),
        published: offer.published,
        reason: offer.reason,
        policy: offer.policy,
        loop_evidence: None,
        suppressed,
        route: offer.route,
    };
    assert(rt@ =~= (RtNodeView { advertised: rt@.advertised, ..before }));
    record
}

// ---------- all sessions ----------

/// The export of a best route on a list of sessions, one after the other.
pub open spec fn exported(
    sids: Seq<Chars>,
    e: Exporting,
    best: Option<RouteView>,
    links: Seq<SessionView>,
    prefix: Chars,
    own_as: u32,
    rules: Seq<RuleView>,
    now: u64,
) -> Exporting
    decreases sids.len(),
{
    if sids.len() == 0 {
        e
    } else {
        exported_on(
            exported(sids.drop_last(), e, best, links, prefix, own_as, rules, now),
            best,
            link(links, sids.last())->0,
            sids.last(),
            prefix,
            own_as,
            rules,
            now,
        )
    }
}

/// The export of the best route of a node for a prefix on all its sessions.
pub open spec fn node_exports(
    node: RtNodeView,
    name: Chars,
    prefix: Chars,
    links: Seq<SessionView>,
    queue: Seq<ScheduledView>,
    now: u64,
) -> Exporting {
    exported(
        outgoing(links, name),
        Exporting { advertised: node.advertised, queue, records: Seq::empty() },
        lookup(node.best, prefix),
        links,
        prefix,
        node.spec.asn,
        node.spec.policy.export,
        now,
    )
}

/// Exporting on one session after others adds one record and takes the advertisements and
/// the queue as it finds them.
proof fn lemma_export_appends(
    e: Exporting,
    best: Option<RouteView>,
    sess: SessionView,
    sid: Chars,
    prefix: Chars,
    own_as: u32,
    rules: Seq<RuleView>,
    now: u64,
)
    ensures
        ({
            let a = exported_on(e, best, sess, sid, prefix, own_as, rules, now);
            let b = exported_on(
                Exporting { records: Seq::empty(), ..e },
                best,
                sess,
                sid,
                prefix,
                own_as,
                rules,
                now,
            );
            &&& a.advertised == b.advertised
            &&& a.queue == b.queue
            &&& a.records == e.records + b.records
        }),
{
    let a = exported_on(e, best, sess, sid, prefix, own_as, rules, now);
    let b = exported_on(
        Exporting { records: Seq::empty(), ..e },
        best,
        sess,
        sid,
        prefix,
        own_as,
        rules,
        now,
    );
    assert(a.records =~= e.records + b.records);
}

/// Evaluates export policy and split horizon of a prefix for every outgoing session and
/// schedules the resulting UPDATEs and WITHDRAWs.
pub fn export_best(
    rt: &mut RtNode,
    queue: &mut Vec<Scheduled>,
    name: &str,
    prefix: &String,
    links: &Vec<Session>,
    now: u64,
) -> (r: Vec<ExportRecord>)
    ensures
        ({
            let e = node_exports(
                old(rt)@,
                name@,
                prefix@,
                links.deep_view(),
                old(queue).deep_view(),
                now,
            );
            &&& final(rt)@ == RtNodeView { advertised: e.advertised, ..old(rt)@ }
            &&& final(queue).deep_view() == e.queue
            &&& r.deep_view() == e.records
        }),
{
    let ghost before = rt@;
    let ghost views = links.deep_view();
    let best: Option<Route> = match rt.best.get(prefix) {
        Some(route) => Some(route.copy()),
        None => None,
    };
    let sids = outgoing_ids(links, name);
    let ghost ids = sids.deep_view();
    let ghost start = Exporting {
        advertised: before.advertised,
        queue: queue.deep_view(),
        records: Seq::empty(),
    };
    let mut records: Vec<ExportRecord> = Vec::new();
    let mut i: usize = 0;
    assert(records.deep_view() =~= Seq::empty());
    while i < sids.len()
        invariant
            i <= sids@.len(),
            ids == sids.deep_view(),
            views == links.deep_view(),
            best.deep_view() == lookup(before.best, prefix@),
            forall|k: int| 0 <= k < sids@.len() ==> link(views, (#[trigger] sids@[k])@) is Some,
            rt@ == (RtNodeView { advertised: rt@.advertised, ..before }),
            (Exporting {
                advertised: rt@.advertised,
                queue: queue.deep_view(),
                records: records.deep_view(),
            }) == exported(
                ids.take(i as int),
                start,
                best.deep_view(),
                views,
                prefix@,
                before.spec.asn,
                before.spec.policy.export,
                now,
            ),
        decreases sids.len() - i,
    {
        let ghost e = Exporting {
            advertised: rt@.advertised,
            queue: queue.deep_view(),
            records: records.deep_view(),
        };
        proof {
            assert(ids.take(i + 1).drop_last() =~= ids.take(i as int));
            assert(ids.take(i + 1).last() == sids@[i as int]@);
        }
        if let Some(sess) = find_link(links, sids[i].as_str()) {
            proof {
                lemma_export_appends(
                    e,
                    best.deep_view(),
                    sess@,
                    sids@[i as int]@,
                    prefix@,
                    before.spec.asn,
                    before.spec.policy.export,
                    now,
                );
            }
            let record = export_on(rt, queue, &best, sess, &sids[i], prefix, now);
            records.push(record);
            assert(records.deep_view() =~= e.records + seq![record@]);
        }
        i += 1;
    }
    assert(ids.take(i as int) =~= ids);
    records
}

// ---------- laws ----------

/// What was learned over iBGP is never published to another iBGP peer, and the refusal
/// says so.
pub proof fn law_split_horizon(
    best: RouteView,
    sess: SessionView,
    own_as: u32,
    rules: Seq<RuleView>,
)
    requires
        sess.kind == SessionKind::IBgp,
        best.provenance == Provenance::IBgp,
    ensures
        !offered(Some(best), sess, own_as, rules).published,
        offered(Some(best), sess, own_as, rules).reason == "ibgp-split-horizon"@,
{
}

/// A route is published exactly when there is a best one, split horizon does not hold it
/// back and the export policy accepts it. A published offer carries a route, a refused
/// one none.
pub proof fn law_published_when_policy_accepts(
    best: Option<RouteView>,
    sess: SessionView,
    own_as: u32,
    rules: Seq<RuleView>,
)
    ensures
        ({
            let o = offered(best, sess, own_as, rules);
            &&& o.published <==> {
                &&& best is Some
                &&& !(sess.kind == SessionKind::IBgp && (best->0).provenance == Provenance::IBgp)
                &&& evaluation(rules, best->0, sess.remote, Decision::Accept).0.decision
                    == Verdict::Accept
            }
            &&& o.published <==> o.route is Some
        }),
{
}

/// Over eBGP the first AS of a published path is the local one, and behind the copies of
/// it stands the path of the best route. Over iBGP nothing but the copies that the policy
/// asked for is added.
pub proof fn law_published_path(
    best: RouteView,
    sess: SessionView,
    own_as: u32,
    rules: Seq<RuleView>,
)
    requires
        offered(Some(best), sess, own_as, rules).published,
    ensures
        ({
            let out = (offered(Some(best), sess, own_as, rules).route)->0;
            let count = evaluation(rules, best, sess.remote, Decision::Accept).2;
            &&& out.prefix == best.prefix
            &&& out.as_path == prepended_path(
                best.as_path,
                own_as,
                match sess.kind {
                    SessionKind::EBgp => 1 + count as nat,
                    SessionKind::IBgp => count as nat,
                },
            )
            &&& sess.kind == SessionKind::EBgp ==> out.as_path.len() > best.as_path.len()
                && out.as_path[0] == own_as
        }),
{
    crate::policy::law_policy_keeps_identity(rules, best, sess.remote, Decision::Accept);
}

/// A route that stands advertised as it is makes no message: the queue stays as it is and
/// the evidence says `unchanged`.
pub proof fn law_unchanged_route_sends_nothing(
    e: Exporting,
    best: Option<RouteView>,
    sess: SessionView,
    sid: Chars,
    prefix: Chars,
    own_as: u32,
    rules: Seq<RuleView>,
    now: u64,
)
    requires
        offered(best, sess, own_as, rules).published,
        standing(e.advertised, sid, prefix) == offered(best, sess, own_as, rules).route,
    ensures
        ({
            let after = exported_on(e, best, sess, sid, prefix, own_as, rules, now);
            &&& after.queue == e.queue
            &&& after.advertised == e.advertised
            &&& after.records.last().suppressed.len() == 1
            &&& after.records.last().suppressed[0].reason == "unchanged"@
        }),
{
}

/// After an export the advertisement marker is what was offered: the published route, or
/// nothing. A message goes out exactly when that differs from what stood before.
pub proof fn law_marker_follows_offer(
    e: Exporting,
    best: Option<RouteView>,
    sess: SessionView,
    sid: Chars,
    prefix: Chars,
    own_as: u32,
    rules: Seq<RuleView>,
    now: u64,
)
    ensures
        ({
            let o = offered(best, sess, own_as, rules);
            let after = exported_on(e, best, sess, sid, prefix, own_as, rules, now);
            &&& standing(after.advertised, sid, prefix) == o.route
            &&& standing(e.advertised, sid, prefix) != o.route ==> after.queue == scheduled(
                e.queue,
                carried(sess, prefix, o.route, now),
            )
            &&& standing(e.advertised, sid, prefix) == o.route ==> after.queue == e.queue
        }),
{
}

/// What a published route carries. Local preference, MED and communities are those that the
/// export policy left of the best route toward that peer. The path is that of the best route
/// behind copies of the local AS: one over eBGP, and as many more as the policy asked for.
/// Everything else is as in the best route.
pub proof fn law_published_route_is_rewritten(
    best: RouteView,
    sess: SessionView,
    own_as: u32,
    rules: Seq<RuleView>,
)
    requires
        offered(Some(best), sess, own_as, rules).published,
    ensures
        offered(Some(best), sess, own_as, rules).route matches Some(out) && {
            let (verdict, left, count) = evaluation(rules, best, sess.remote, Decision::Accept);
            let copies = if sess.kind == SessionKind::EBgp { count + 1 } else { count as int };
            &&& out.local_pref == left.local_pref
            &&& out.med == left.med
            &&& out.communities == left.communities
            &&& out.prefix == best.prefix
            &&& out.provenance == best.provenance
            &&& out.ingress_session == best.ingress_session
            &&& out.first_as == best.first_as
            &&& out.as_path.len() == best.as_path.len() + copies
            &&& forall|i: int| 0 <= i < copies ==> #[trigger] out.as_path[i] == own_as
            &&& out.as_path.skip(copies) == best.as_path
            &&& offered(Some(best), sess, own_as, rules).policy == Some(verdict)
        },
{
    crate::policy::law_policy_keeps_identity(rules, best, sess.remote, Decision::Accept);
    let out = (offered(Some(best), sess, own_as, rules).route)->0;
    let count = evaluation(rules, best, sess.remote, Decision::Accept).2;
    let copies = if sess.kind == SessionKind::EBgp { count + 1 } else { count as int };
    assert(out.as_path.skip(copies) =~= best.as_path);
}

/// Why a route is not published: there is none, it was learned over iBGP and the session is
/// iBGP, or the export policy refused it; and a refusal of the policy is handed out with it.
pub proof fn law_refusal_says_why(
    best: Option<RouteView>,
    sess: SessionView,
    own_as: u32,
    rules: Seq<RuleView>,
)
    requires
        !offered(best, sess, own_as, rules).published,
    ensures
        ({
            let o = offered(best, sess, own_as, rules);
            let verdict = evaluation(rules, best->0, sess.remote, Decision::Accept).0;
            &&& o.route is None
            &&& best is None ==> o.reason == "no-best-path"@ && o.policy is None
            &&& best is Some && sess.kind == SessionKind::IBgp && (best->0).provenance
                == Provenance::IBgp ==> o.reason == "ibgp-split-horizon"@ && o.policy is None
            &&& best is Some && !(sess.kind == SessionKind::IBgp && (best->0).provenance
                == Provenance::IBgp) ==> {
                &&& verdict.decision == Verdict::Reject
                &&& o.reason == "export-rejected: "@ + verdict.reason
                &&& o.policy == Some(verdict)
            }
        }),
{
}

/// What an advertisement says: the route that was last published and not withdrawn, if any.
pub open spec fn says(
    advertised: Map<(Chars, Chars), Option<RouteView>>,
    sid: Chars,
    prefix: Chars,
) -> Option<RouteView> {
    if advertised.dom().contains((sid, prefix)) {
        advertised[(sid, prefix)]
    } else {
        None
    }
}

/// Whether a queue ends in a message, fresh, behind what was queued before.
pub open spec fn newly_sent(
    before: Seq<ScheduledView>,
    after: Seq<ScheduledView>,
    m: ScheduledView,
) -> bool {
    exists|i: int| before.len() <= i < after.len() && #[trigger] after[i] == m
}

/// Exporting on sessions of other ids leaves what an id says alone.
proof fn lemma_exported_elsewhere(
    sids: Seq<Chars>,
    e: Exporting,
    best: Option<RouteView>,
    links: Seq<SessionView>,
    prefix: Chars,
    own_as: u32,
    rules: Seq<RuleView>,
    now: u64,
    k: (Chars, Chars),
)
    requires
        !sids.contains(k.0) || k.1 != prefix,
    ensures
        ({
            let out = exported(sids, e, best, links, prefix, own_as, rules, now);
            &&& out.advertised.dom().contains(k) == e.advertised.dom().contains(k)
            &&& out.advertised[k] == e.advertised[k]
        }),
    decreases sids.len(),
{
    if sids.len() > 0 {
        let init = sids.drop_last();
        assert forall|x: Chars| init.contains(x) implies sids.contains(x) by {
            let i = choose|i: int| 0 <= i < init.len() && init[i] == x;
            assert(sids[i] == x);
        }
        assert(sids[sids.len() - 1] == sids.last());
        lemma_exported_elsewhere(init, e, best, links, prefix, own_as, rules, now, k);
    }
}

proof fn lemma_exported_says(
    sids: Seq<Chars>,
    e: Exporting,
    best: Option<RouteView>,
    links: Seq<SessionView>,
    prefix: Chars,
    own_as: u32,
    rules: Seq<RuleView>,
    now: u64,
    sid: Chars,
)
    requires
        sids.contains(sid),
    ensures
        says(
            exported(sids, e, best, links, prefix, own_as, rules, now).advertised,
            sid,
            prefix,
        ) == offered(best, link(links, sid)->0, own_as, rules).route,
    decreases sids.len(),
{
    let init = sids.drop_last();
    if sids.last() != sid {
        let i = choose|i: int| 0 <= i < sids.len() && sids[i] == sid;
        assert(init[i] == sid);
        lemma_exported_says(init, e, best, links, prefix, own_as, rules, now, sid);
    }
}

proof fn lemma_exported_sent(
    sids: Seq<Chars>,
    e: Exporting,
    best: Option<RouteView>,
    links: Seq<SessionView>,
    prefix: Chars,
    own_as: u32,
    rules: Seq<RuleView>,
    now: u64,
    sid: Chars,
)
    requires
        sids.contains(sid),
        forall|k: int|
            0 <= k < sids.len() ==> (link(links, #[trigger] sids[k])->0).id == sids[k],
        says(e.advertised, sid, prefix) != offered(best, link(links, sid)->0, own_as, rules).route,
    ensures
        ({
            let out = exported(sids, e, best, links, prefix, own_as, rules, now);
            &&& out.queue.len() >= e.queue.len()
            &&& newly_sent(
                e.queue,
                out.queue,
                carried(
                    link(links, sid)->0,
                    prefix,
                    offered(best, link(links, sid)->0, own_as, rules).route,
                    now,
                ),
            )
        }),
    decreases sids.len(),
{
    let init = sids.drop_last();
    let o = offered(best, link(links, sid)->0, own_as, rules);
    let m = carried(link(links, sid)->0, prefix, o.route, now);
    let before = exported(init, e, best, links, prefix, own_as, rules, now);
    let after = exported(sids, e, best, links, prefix, own_as, rules, now);
    let last = sids.last();
    assert(sids[sids.len() - 1] == last);
    lemma_exported_longer(init, e, best, links, prefix, own_as, rules, now);
    assert forall|k: int| 0 <= k < init.len() implies (link(links, #[trigger] init[k])->0).id
        == init[k] by {
        assert(init[k] == sids[k]);
    }
    if init.contains(sid) {
        lemma_exported_sent(init, e, best, links, prefix, own_as, rules, now, sid);
        lemma_exported_says(init, e, best, links, prefix, own_as, rules, now, sid);
        let i = choose|i: int| e.queue.len() <= i < before.queue.len() && #[trigger]
            before.queue[i] == m;
        if last == sid {
            assert(after.queue == before.queue);
        } else {
            let sess = link(links, last)->0;
            assert(sess.id == last);
            assert((link(links, sid)->0).id == sid) by {
                let k = choose|k: int| 0 <= k < init.len() && init[k] == sid;
                assert(init[k] == sid);
            }
            assert(after.queue[i] == m);
        }
    } else {
        let i = choose|i: int| 0 <= i < sids.len() && sids[i] == sid;
        if i < init.len() {
            assert(init[i] == sid);
        }
        lemma_exported_elsewhere(
            init,
            e,
            best,
            links,
            prefix,
            own_as,
            rules,
            now,
            (sid, prefix),
        );
        assert(after.queue.last() == m);
        assert(after.queue[after.queue.len() - 1] == m);
    }
}

pub proof fn lemma_exported_longer(
    sids: Seq<Chars>,
    e: Exporting,
    best: Option<RouteView>,
    links: Seq<SessionView>,
    prefix: Chars,
    own_as: u32,
    rules: Seq<RuleView>,
    now: u64,
)
    ensures
        exported(sids, e, best, links, prefix, own_as, rules, now).queue.len() >= e.queue.len(),
    decreases sids.len(),
{
    if sids.len() > 0 {
        lemma_exported_longer(sids.drop_last(), e, best, links, prefix, own_as, rules, now);
    }
}

proof fn lemma_exported_records(
    sids: Seq<Chars>,
    e: Exporting,
    best: Option<RouteView>,
    links: Seq<SessionView>,
    prefix: Chars,
    own_as: u32,
    rules: Seq<RuleView>,
    now: u64,
)
    ensures
        ({
            let out = exported(sids, e, best, links, prefix, own_as, rules, now).records;
            &&& out.len() == e.records.len() + sids.len()
            &&& forall|k: int|
                0 <= k < sids.len() ==> {
                    let r = out[e.records.len() + k];
                    let sess = link(links, #[trigger] sids[k])->0;
                    let o = offered(best, sess, own_as, rules);
                    &&& r.session == sids[k]
                    &&& r.to == sess.remote
                    &&& r.prefix == prefix
                    &&& r.published == o.published
                    &&& r.reason == o.reason
                    &&& r.policy == o.policy
                    &&& r.route == o.route
                }
        }),
    decreases sids.len(),
{
    if sids.len() > 0 {
        let init = sids.drop_last();
        lemma_exported_records(init, e, best, links, prefix, own_as, rules, now);
        let before = exported(init, e, best, links, prefix, own_as, rules, now).records;
        let out = exported(sids, e, best, links, prefix, own_as, rules, now).records;
        let base = e.records.len();
        assert forall|k: int| 0 <= k < sids.len() implies ({
            let r = out[base + k];
            let sess = link(links, #[trigger] sids[k])->0;
            let o = offered(best, sess, own_as, rules);
            &&& r.session == sids[k]
            &&& r.to == sess.remote
            &&& r.prefix == prefix
            &&& r.published == o.published
            &&& r.reason == o.reason
            &&& r.policy == o.policy
            &&& r.route == o.route
        }) by {
            if k < init.len() {
                assert(init[k] == sids[k]);
                assert(out[base + k] == before[base + k]);
            }
        }
    }
}

/// A node exports on every session that starts at it, and on no other. After that each of
/// them says what is offered there: the published route, or nothing. Where it said something
/// else before, a fresh message brings the news to the other end. One record per session, in
/// the order of the sessions, says what was decided. Other prefixes are left alone.
pub proof fn law_export_reaches_every_session(
    node: RtNodeView,
    name: Chars,
    prefix: Chars,
    links: Seq<SessionView>,
    queue: Seq<ScheduledView>,
    now: u64,
    i: int,
)
    requires
        0 <= i < links.len(),
        links[i].local == name,
    ensures
        ({
            let sess = link(links, links[i].id)->0;
            let best = if node.best.dom().contains(prefix) {
                Some(node.best[prefix])
            } else {
                None
            };
            let o = offered(best, sess, node.spec.asn, node.spec.policy.export);
            let e = node_exports(node, name, prefix, links, queue, now);
            &&& sess.id == links[i].id
            &&& says(e.advertised, sess.id, prefix) == o.route
            &&& says(node.advertised, sess.id, prefix) != o.route ==> newly_sent(
                queue,
                e.queue,
                carried(sess, prefix, o.route, now),
            )
            &&& exists|k: int|
                0 <= k < e.records.len() && {
                    let r = #[trigger] e.records[k];
                    &&& r.session == sess.id
                    &&& r.to == sess.remote
                    &&& r.prefix == prefix
                    &&& r.published == o.published
                    &&& r.reason == o.reason
                    &&& r.policy == o.policy
                    &&& r.route == o.route
                }
            &&& forall|sid: Chars, p: Chars|
                p != prefix ==> #[trigger] says(e.advertised, sid, p) == says(
                    node.advertised,
                    sid,
                    p,
                )
        }),
{
    let sids = outgoing(links, name);
    let starts = |s: SessionView| s.local == name;
    let f = links.filter(starts);
    links.lemma_filter_contains(starts, i);
    let k = choose|k: int| 0 <= k < f.len() && f[k] == links[i];
    let sid = links[i].id;
    assert(sids[k] == sid);
    assert(sids.contains(sid));
    crate::rib::lemma_link_exists(links, i);
    assert forall|j: int| 0 <= j < sids.len() implies (link(links, #[trigger] sids[j])->0).id
        == sids[j] by {
        links.lemma_filter_pred(starts, j);
        assert(f.contains(f[j]));
        links.lemma_filter_contains_rev(starts, f[j]);
        let x = choose|x: int| 0 <= x < links.len() && links[x] == f[j];
        crate::rib::lemma_link_exists(links, x);
    }
    let first = Exporting { advertised: node.advertised, queue, records: Seq::empty() };
    let best = lookup(node.best, prefix);
    let own_as = node.spec.asn;
    let rules = node.spec.policy.export;
    let e = node_exports(node, name, prefix, links, queue, now);
    lemma_exported_says(sids, first, best, links, prefix, own_as, rules, now, sid);
    lemma_exported_records(sids, first, best, links, prefix, own_as, rules, now);
    let r = e.records[0 + k];
    assert(e.records[k] == r);
    if says(node.advertised, sid, prefix) != offered(
        best,
        link(links, sid)->0,
        own_as,
        rules,
    ).route {
        lemma_exported_sent(sids, first, best, links, prefix, own_as, rules, now, sid);
    }
    assert forall|x: Chars, p: Chars| p != prefix implies #[trigger] says(e.advertised, x, p)
        == says(node.advertised, x, p) by {
        lemma_exported_elsewhere(sids, first, best, links, prefix, own_as, rules, now, (x, p));
    }
}

/// A node exports on no session that does not start at it: there is one record for each that
/// does, and sessions that none of these is named after keep saying what they said.
pub proof fn law_export_touches_no_other_session(
    node: RtNodeView,
    name: Chars,
    prefix: Chars,
    links: Seq<SessionView>,
    queue: Seq<ScheduledView>,
    now: u64,
    sid: Chars,
)
    requires
        forall|i: int|
            0 <= i < links.len() && (#[trigger] links[i]).id == sid ==> links[i].local != name,
    ensures
        ({
            let e = node_exports(node, name, prefix, links, queue, now);
            &&& says(e.advertised, sid, prefix) == says(node.advertised, sid, prefix)
            &&& forall|k: int| 0 <= k < e.records.len() ==> (#[trigger] e.records[k]).session
                != sid
            &&& e.records.len() == links.filter(|s: SessionView| s.local == name).len()
        }),
{
    let sids = outgoing(links, name);
    let starts = |s: SessionView| s.local == name;
    let f = links.filter(starts);
    let first = Exporting { advertised: node.advertised, queue, records: Seq::empty() };
    let best = lookup(node.best, prefix);
    let own_as = node.spec.asn;
    let rules = node.spec.policy.export;
    assert forall|k: int| 0 <= k < sids.len() implies #[trigger] sids[k] != sid by {
        links.lemma_filter_pred(starts, k);
        assert(f.contains(f[k]));
        links.lemma_filter_contains_rev(starts, f[k]);
        let x = choose|x: int| 0 <= x < links.len() && links[x] == f[k];
        assert(links[x].local == name);
    }
    lemma_exported_elsewhere(sids, first, best, links, prefix, own_as, rules, now, (sid, prefix));
    lemma_exported_records(sids, first, best, links, prefix, own_as, rules, now);
    let e = node_exports(node, name, prefix, links, queue, now);
    assert forall|k: int| 0 <= k < e.records.len() implies (#[trigger] e.records[k]).session
        != sid by {
        let r = e.records[0 + k];
        assert(sids[k] != sid);
    }
}

/// Where a session gets no UPDATE, the record says why: because the same route stands
/// advertised already, because what stood advertised is withdrawn, or because nothing was ever
/// published there. An UPDATE, and a session on which there was and is nothing, need no reason.
pub proof fn law_silence_is_explained(
    e: Exporting,
    best: Option<RouteView>,
    sess: SessionView,
    sid: Chars,
    prefix: Chars,
    own_as: u32,
    rules: Seq<RuleView>,
    now: u64,
)
    ensures
        ({
            let o = offered(best, sess, own_as, rules);
            let r = exported_on(e, best, sess, sid, prefix, own_as, rules, now).records.last();
            let stood = says(e.advertised, sid, prefix);
            let why = r.suppressed;
            &&& forall|k: int| 0 <= k < why.len() ==> (#[trigger] why[k]).session == sid
            &&& o.published && stood == o.route ==> why.len() == 1 && why[0].reason
                == "unchanged"@
            &&& o.published && stood != o.route ==> why.len() == 0
            &&& !o.published && stood is Some ==> why.len() == 1 && why[0].reason
                == "withdraw-scheduled"@
            &&& !o.published && stood is None && best is Some ==> why.len() == 1 && why[0].reason
                == o.reason
            &&& best is None && stood is None ==> why.len() == 0
        }),
{
}

} // verus!
