//! The JSON form of scenarios, routes and evidence.

use crate::bestpath::{
    SelectionReport, SelectionReportView, StageReport, StageReportView,
};
use crate::evidence::{
    ExportRecord, ExportRecordView, LoopEvidence, LoopEvidenceView, ReceiveRecord,
    ReceiveRecordView, RunStatus, Step, StepKind, StepView, SuppressionEvidence,
    SuppressionEvidenceView,
};
use crate::json::{
    counted, has_member, has_size, lemma_pushed, lemma_with_items, lemma_with_some, with_items,
    with_some, Json, JsonView, Members, ToJson,
};
use crate::model::{
    Action, ActionView, Announcement, AnnouncementView, Cmp, EventSpec, EventSpecView, Match,
    MatchView, NodeSpec, NodeSpecView, OnMatch, Policy, PolicyView, Provenance, Route, RouteView,
    Rule, RuleView, ScenarioInput, ScenarioInputView, Session, SessionKind, SessionView,
};
use crate::ordmap::OrdMap;
use crate::policy::{
    PolicyVerdict, PolicyVerdictView, RuleOutcome, RuleTraceEntry, RuleTraceEntryView, Verdict,
};
use crate::text::{decimal, Chars};
use vstd::prelude::*;

verus! {

// ---------- scenarios ----------

impl ToJson for SessionKind {
    open spec fn json(v: SessionKind) -> JsonView {
        JsonView::Text(v.name())
    }

    fn to_json(&self) -> (r: Json) {
        Json::Text(self.as_str().to_owned())
    }
}

impl ToJson for Provenance {
    open spec fn json(v: Provenance) -> JsonView {
        JsonView::Text(v.name())
    }

    fn to_json(&self) -> (r: Json) {
        Json::Text(self.as_str().to_owned())
    }
}

impl ToJson for Cmp {
    open spec fn json(v: Cmp) -> JsonView {
        JsonView::Text(
            match v {
                Cmp::Eq => "eq"@,
                Cmp::Ne => "ne"@,
                Cmp::In => "in"@,
                Cmp::NotIn => "not-in"@,
                Cmp::Matches => "matches"@,
                Cmp::Gte => "gte"@,
                Cmp::Lte => "lte"@,
            },
        )
    }

    fn to_json(&self) -> (r: Json) {
        let name = match self {
            Cmp::Eq => "eq",
            Cmp::Ne => "ne",
            Cmp::In => "in",
            Cmp::NotIn => "not-in",
            Cmp::Matches => "matches",
            Cmp::Gte => "gte",
            Cmp::Lte => "lte",
        };
        Json::Text(name.to_owned())
    }
}

impl ToJson for OnMatch {
    open spec fn json(v: OnMatch) -> JsonView {
        JsonView::Text(
            match v {
                OnMatch::Continue => "continue"@,
                OnMatch::Accept => "accept"@,
                OnMatch::Reject => "reject"@,
            },
        )
    }

    fn to_json(&self) -> (r: Json) {
        let name = match self {
            OnMatch::Continue => "continue",
            OnMatch::Accept => "accept",
            OnMatch::Reject => "reject",
        };
        Json::Text(name.to_owned())
    }
}

impl ToJson for Session {
    open spec fn json(v: SessionView) -> JsonView {
        let m = Seq::empty();
        let m = m.push(("id"@, String::json(v.id)));
        let m = m.push(("local"@, String::json(v.local)));
        let m = m.push(("remote"@, String::json(v.remote)));
        let m = m.push(("kind"@, SessionKind::json(v.kind)));
        let m = m.push(("delay"@, u64::json(v.delay)));
        JsonView::Object(m)
    }

    fn to_json(&self) -> (r: Json) {
        let mut m = Members::new();
        m.put("id", &self.id);
        m.put("local", &self.local);
        m.put("remote", &self.remote);
        m.put("kind", &self.kind);
        m.put("delay", &self.delay);
        m.object()
    }
}

impl ToJson for Match {
    open spec fn json(v: MatchView) -> JsonView {
        let m = Seq::empty();
        let m = m.push(("peer"@, Option::<String>::json(v.peer)));
        let m = m.push(("prefix"@, Option::<String>::json(v.prefix)));
        let m = with_some::<Cmp>(m, "prefix_cmp"@, v.prefix_cmp);
        let m = with_some::<usize>(m, "as_path_len"@, v.as_path_len);
        let m = with_some::<Cmp>(m, "as_path_len_cmp"@, v.as_path_len_cmp);
        let m = with_items::<u32>(m, "as_path_contains"@, v.as_path_contains);
        let m = with_some::<i64>(m, "local_pref"@, v.local_pref);
        let m = with_some::<Cmp>(m, "local_pref_cmp"@, v.local_pref_cmp);
        let m = with_some::<i64>(m, "med"@, v.med);
        let m = with_some::<Cmp>(m, "med_cmp"@, v.med_cmp);
        let m = with_items::<String>(m, "community_any"@, v.community_any);
        let m = with_some::<Cmp>(m, "community_any_cmp"@, v.community_any_cmp);
        JsonView::Object(m)
    }

    fn to_json(&self) -> (r: Json) {
        let mut m = Members::new();
        m.put("peer", &self.peer);
        m.put("prefix", &self.prefix);
        m.put_some("prefix_cmp", &self.prefix_cmp);
        m.put_some("as_path_len", &self.as_path_len);
        m.put_some("as_path_len_cmp", &self.as_path_len_cmp);
        m.put_items("as_path_contains", &self.as_path_contains);
        m.put_some("local_pref", &self.local_pref);
        m.put_some("local_pref_cmp", &self.local_pref_cmp);
        m.put_some("med", &self.med);
        m.put_some("med_cmp", &self.med_cmp);
        m.put_items("community_any", &self.community_any);
        m.put_some("community_any_cmp", &self.community_any_cmp);
        m.object()
    }
}

impl ToJson for Action {
    open spec fn json(v: ActionView) -> JsonView {
        let m = Seq::empty();
        let m = with_some::<i64>(m, "set_local_pref"@, v.set_local_pref);
        let m = with_some::<i64>(m, "set_med"@, v.set_med);
        let m = with_some::<String>(m, "add_community"@, v.add_community);
        let m = with_items::<String>(m, "remove_communities"@, v.remove_communities);
        let m = with_some::<u32>(m, "as_path_prepend"@, v.as_path_prepend);
        JsonView::Object(m)
    }

    fn to_json(&self) -> (r: Json) {
        let mut m = Members::new();
        m.put_some("set_local_pref", &self.set_local_pref);
        m.put_some("set_med", &self.set_med);
        m.put_some("add_community", &self.add_community);
        m.put_items("remove_communities", &self.remove_communities);
        m.put_some("as_path_prepend", &self.as_path_prepend);
        m.object()
    }
}

impl ToJson for Rule {
    open spec fn json(v: RuleView) -> JsonView {
        let m = Seq::empty();
        let m = m.push(("id"@, String::json(v.id)));
        let m = m.push(("description"@, String::json(v.description)));
        let m = m.push(("when"@, Match::json(v.when)));
        let m = m.push(("do"@, Action::json(v.do_)));
        let m = m.push(("on_match"@, OnMatch::json(v.on_match)));
        JsonView::Object(m)
    }

    fn to_json(&self) -> (r: Json) {
        let mut m = Members::new();
        m.put("id", &self.id);
        m.put("description", &self.description);
        m.put("when", &self.when);
        m.put("do", &self.do_);
        m.put("on_match", &self.on_match);
        m.object()
    }
}

impl ToJson for Policy {
    open spec fn json(v: PolicyView) -> JsonView {
        let m = Seq::empty();
        let m = m.push(("import"@, Vec::<Rule>::json(v.import)));
        let m = m.push(("export"@, Vec::<Rule>::json(v.export)));
        JsonView::Object(m)
    }

    fn to_json(&self) -> (r: Json) {
        let mut m = Members::new();
        m.put("import", &self.import);
        m.put("export", &self.export);
        m.object()
    }
}

impl ToJson for Announcement {
    open spec fn json(v: AnnouncementView) -> JsonView {
        let m = Seq::empty();
        let m = m.push(("id"@, String::json(v.id)));
        let m = m.push(("node"@, String::json(v.node)));
        let m = m.push(("prefix"@, String::json(v.prefix)));
        let m = m.push(("local_pref"@, i64::json(v.local_pref)));
        let m = m.push(("med"@, Option::<i64>::json(v.med)));
        let m = m.push(("communities"@, Vec::<String>::json(v.communities)));
        JsonView::Object(m)
    }

    fn to_json(&self) -> (r: Json) {
        let mut m = Members::new();
        m.put("id", &self.id);
        m.put("node", &self.node);
        m.put("prefix", &self.prefix);
        m.put("local_pref", &self.local_pref);
        m.put("med", &self.med);
        m.put("communities", &self.communities);
        m.object()
    }
}

impl ToJson for EventSpec {
    open spec fn json(v: EventSpecView) -> JsonView {
        match v {
            EventSpecView::Withdraw { id, announcement, tick } => JsonView::Object(
                Seq::empty().push(("type"@, JsonView::Text("withdraw"@))).push(
                    ("id"@, String::json(id)),
                ).push(("announcement"@, String::json(announcement))).push(
                    ("tick"@, u64::json(tick)),
                ),
            ),
            EventSpecView::Restart { id, node, tick } => JsonView::Object(
                Seq::empty().push(("type"@, JsonView::Text("restart"@))).push(
                    ("id"@, String::json(id)),
                ).push(("node"@, String::json(node))).push(("tick"@, u64::json(tick))),
            ),
        }
    }

    fn to_json(&self) -> (r: Json) {
        let mut m = Members::new();
        match self {
            EventSpec::Withdraw { id, announcement, tick } => {
                m.put_json("type", Json::Text("withdraw".to_owned()));
                m.put("id", id);
                m.put("announcement", announcement);
                m.put("tick", tick);
            },
            EventSpec::Restart { id, node, tick } => {
                m.put_json("type", Json::Text("restart".to_owned()));
                m.put("id", id);
                m.put("node", node);
                m.put("tick", tick);
            },
        }
        m.object()
    }
}

impl ToJson for NodeSpec {
    open spec fn json(v: NodeSpecView) -> JsonView {
        let m = Seq::empty();
        let m = m.push(("asn"@, u32::json(v.asn)));
        let m = m.push(("x"@, JsonView::Number(v.x)));
        let m = m.push(("y"@, JsonView::Number(v.y)));
        let m = m.push(("policy"@, Policy::json(v.policy)));
        JsonView::Object(m)
    }

    fn to_json(&self) -> (r: Json) {
        let mut m = Members::new();
        m.put("asn", &self.asn);
        m.put_json("x", Json::Number(self.x.clone()));
        m.put_json("y", Json::Number(self.y.clone()));
        m.put("policy", &self.policy);
        m.object()
    }
}

impl ToJson for ScenarioInput {
    open spec fn json(v: ScenarioInputView) -> JsonView {
        let m = Seq::empty();
        let m = m.push(("name"@, String::json(v.name)));
        let m = m.push(("description"@, String::json(v.description)));
        let m = m.push(("nodes"@, OrdMap::<String, NodeSpec>::json(v.nodes)));
        let m = m.push(("sessions"@, Vec::<Session>::json(v.sessions)));
        let m = m.push(("announcements"@, Vec::<Announcement>::json(v.announcements)));
        let m = m.push(("events"@, Vec::<EventSpec>::json(v.events)));
        let m = m.push(("max_iterations"@, usize::json(v.max_iterations)));
        JsonView::Object(m)
    }

    fn to_json(&self) -> (r: Json) {
        let mut m = Members::new();
        m.put("name", &self.name);
        m.put("description", &self.description);
        m.put("nodes", &self.nodes);
        m.put("sessions", &self.sessions);
        m.put("announcements", &self.announcements);
        m.put("events", &self.events);
        m.put("max_iterations", &self.max_iterations);
        m.object()
    }
}

// ---------- routes and evidence ----------

impl ToJson for Route {
    open spec fn json(v: RouteView) -> JsonView {
        let m = Seq::empty();
        let m = m.push(("prefix"@, String::json(v.prefix)));
        let m = m.push(("as_path"@, Vec::<u32>::json(v.as_path)));
        let m = m.push(("local_pref"@, i64::json(v.local_pref)));
        let m = m.push(("med"@, Option::<i64>::json(v.med)));
        let m = m.push(("communities"@, Vec::<String>::json(v.communities)));
        let m = m.push(("provenance"@, Provenance::json(v.provenance)));
        let m = m.push(("ingress_session"@, Option::<String>::json(v.ingress_session)));
        let m = m.push(("first_as"@, Option::<u32>::json(v.first_as)));
        JsonView::Object(m)
    }

    fn to_json(&self) -> (r: Json) {
        let mut m = Members::new();
        m.put("prefix", &self.prefix);
        m.put("as_path", &self.as_path);
        m.put("local_pref", &self.local_pref);
        m.put("med", &self.med);
        m.put("communities", &self.communities);
        m.put("provenance", &self.provenance);
        m.put("ingress_session", &self.ingress_session);
        m.put("first_as", &self.first_as);
        m.object()
    }
}

impl ToJson for RuleOutcome {
    open spec fn json(v: RuleOutcome) -> JsonView {
        JsonView::Text(
            match v {
                RuleOutcome::Miss => "miss"@,
                RuleOutcome::HitContinue => "hit-continue"@,
                RuleOutcome::HitAccept => "hit-accept"@,
                RuleOutcome::HitReject => "hit-reject"@,
            },
        )
    }

    fn to_json(&self) -> (r: Json) {
        let name = match self {
            RuleOutcome::Miss => "miss",
            RuleOutcome::HitContinue => "hit-continue",
            RuleOutcome::HitAccept => "hit-accept",
            RuleOutcome::HitReject => "hit-reject",
        };
        Json::Text(name.to_owned())
    }
}

impl ToJson for Verdict {
    open spec fn json(v: Verdict) -> JsonView {
        JsonView::Text(
            match v {
                Verdict::Accept => "accept"@,
                Verdict::Reject => "reject"@,
            },
        )
    }

    fn to_json(&self) -> (r: Json) {
        let name = match self {
            Verdict::Accept => "accept",
            Verdict::Reject => "reject",
        };
        Json::Text(name.to_owned())
    }
}

impl ToJson for StepKind {
    open spec fn json(v: StepKind) -> JsonView {
        JsonView::Text(
            match v {
                StepKind::OriginInject => "origin-inject"@,
                StepKind::OriginWithdraw => "origin-withdraw"@,
                StepKind::Receive => "receive"@,
                StepKind::Withdraw => "withdraw"@,
                StepKind::Restart => "restart"@,
                StepKind::Refresh => "refresh"@,
            },
        )
    }

    fn to_json(&self) -> (r: Json) {
        let name = match self {
            StepKind::OriginInject => "origin-inject",
            StepKind::OriginWithdraw => "origin-withdraw",
            StepKind::Receive => "receive",
            StepKind::Withdraw => "withdraw",
            StepKind::Restart => "restart",
            StepKind::Refresh => "refresh",
        };
        Json::Text(name.to_owned())
    }
}

impl ToJson for RunStatus {
    open spec fn json(v: RunStatus) -> JsonView {
        JsonView::Text(
            match v {
                RunStatus::Stable => "stable"@,
                RunStatus::Oscillation => "oscillation"@,
                RunStatus::Inconclusive => "inconclusive"@,
            },
        )
    }

    fn to_json(&self) -> (r: Json) {
        let name = match self {
            RunStatus::Stable => "stable",
            RunStatus::Oscillation => "oscillation",
            RunStatus::Inconclusive => "inconclusive",
        };
        Json::Text(name.to_owned())
    }
}

impl ToJson for RuleTraceEntry {
    open spec fn json(v: RuleTraceEntryView) -> JsonView {
        let m = Seq::empty();
        let m = m.push(("index"@, usize::json(v.index)));
        let m = m.push(("rule"@, String::json(v.rule)));
        let m = m.push(("outcome"@, RuleOutcome::json(v.outcome)));
        let m = m.push(("detail"@, String::json(v.detail)));
        let m = with_some::<Route>(m, "after"@, v.after);
        JsonView::Object(m)
    }

    fn to_json(&self) -> (r: Json) {
        let mut m = Members::new();
        m.put("index", &self.index);
        m.put("rule", &self.rule);
        m.put("outcome", &self.outcome);
        m.put("detail", &self.detail);
        m.put_some("after", &self.after);
        m.object()
    }
}

impl ToJson for PolicyVerdict {
    open spec fn json(v: PolicyVerdictView) -> JsonView {
        let m = Seq::empty();
        let m = m.push(("decision"@, Verdict::json(v.decision)));
        let m = m.push(("reason"@, String::json(v.reason)));
        let m = m.push(("defaulted"@, bool::json(v.defaulted)));
        let m = m.push(("trace"@, Vec::<RuleTraceEntry>::json(v.trace)));
        JsonView::Object(m)
    }

    fn to_json(&self) -> (r: Json) {
        let mut m = Members::new();
        m.put("decision", &self.decision);
        m.put("reason", &self.reason);
        m.put("defaulted", &self.defaulted);
        m.put("trace", &self.trace);
        m.object()
    }
}

impl ToJson for StageReport {
    open spec fn json(v: StageReportView) -> JsonView {
        let m = Seq::empty();
        let m = m.push(("stage"@, usize::json(v.stage)));
        let m = m.push(("name"@, String::json(v.name)));
        let m = m.push(("detail"@, String::json(v.detail)));
        let m = m.push(("retained"@, Vec::<String>::json(v.retained)));
        JsonView::Object(m)
    }

    fn to_json(&self) -> (r: Json) {
        let mut m = Members::new();
        m.put("stage", &self.stage);
        m.put("name", &self.name);
        m.put("detail", &self.detail);
        m.put("retained", &self.retained);
        m.object()
    }
}

impl ToJson for SelectionReport {
    open spec fn json(v: SelectionReportView) -> JsonView {
        let m = Seq::empty();
        let m = m.push(("winner"@, Option::<String>::json(v.winner)));
        let m = m.push(("equal_peer"@, Option::<String>::json(v.equal_peer)));
        let m = m.push(("stages"@, Vec::<StageReport>::json(v.stages)));
        let m = m.push(("tie_key_winner"@, Option::<String>::json(v.tie_key_winner)));
        JsonView::Object(m)
    }

    fn to_json(&self) -> (r: Json) {
        let mut m = Members::new();
        m.put("winner", &self.winner);
        m.put("equal_peer", &self.equal_peer);
        m.put("stages", &self.stages);
        m.put("tie_key_winner", &self.tie_key_winner);
        m.object()
    }
}

impl ToJson for LoopEvidence {
    open spec fn json(v: LoopEvidenceView) -> JsonView {
        let m = Seq::empty();
        let m = m.push(("kind"@, String::json(v.kind)));
        let m = m.push(("detail"@, String::json(v.detail)));
        let m = m.push(("session"@, String::json(v.session)));
        let m = m.push(("as_path"@, Vec::<u32>::json(v.as_path)));
        let m = m.push(("own_as"@, u32::json(v.own_as)));
        JsonView::Object(m)
    }

    fn to_json(&self) -> (r: Json) {
        let mut m = Members::new();
        m.put("kind", &self.kind);
        m.put("detail", &self.detail);
        m.put("session", &self.session);
        m.put("as_path", &self.as_path);
        m.put("own_as", &self.own_as);
        m.object()
    }
}

impl ToJson for SuppressionEvidence {
    open spec fn json(v: SuppressionEvidenceView) -> JsonView {
        let m = Seq::empty();
        let m = m.push(("session"@, String::json(v.session)));
        let m = m.push(("reason"@, String::json(v.reason)));
        let m = m.push(("detail"@, String::json(v.detail)));
        JsonView::Object(m)
    }

    fn to_json(&self) -> (r: Json) {
        let mut m = Members::new();
        m.put("session", &self.session);
        m.put("reason", &self.reason);
        m.put("detail", &self.detail);
        m.object()
    }
}

impl ToJson for ReceiveRecord {
    open spec fn json(v: ReceiveRecordView) -> JsonView {
        let m = Seq::empty();
        let m = m.push(("session"@, String::json(v.session)));
        let m = m.push(("from"@, String::json(v.from)));
        let m = m.push(("prefix"@, String::json(v.prefix)));
        let m = m.push(("accepted"@, bool::json(v.accepted)));
        let m = m.push(("reason"@, String::json(v.reason)));
        let m = m.push(("policy"@, PolicyVerdict::json(v.policy)));
        let m = with_some::<LoopEvidence>(m, "loop_evidence"@, v.loop_evidence);
        let m = m.push(("route_after"@, Option::<Route>::json(v.route_after)));
        let m = m.push(("best_changed"@, bool::json(v.best_changed)));
        let m = m.push(("best"@, Option::<Route>::json(v.best)));
        JsonView::Object(m)
    }

    fn to_json(&self) -> (r: Json) {
        let mut m = Members::new();
        m.put("session", &self.session);
        m.put("from", &self.from);
        m.put("prefix", &self.prefix);
        m.put("accepted", &self.accepted);
        m.put("reason", &self.reason);
        m.put("policy", &self.policy);
        m.put_some("loop_evidence", &self.loop_evidence);
        m.put("route_after", &self.route_after);
        m.put("best_changed", &self.best_changed);
        m.put("best", &self.best);
        m.object()
    }
}

impl ToJson for ExportRecord {
    open spec fn json(v: ExportRecordView) -> JsonView {
        let m = Seq::empty();
        let m = m.push(("session"@, String::json(v.session)));
        let m = m.push(("to"@, String::json(v.to)));
        let m = m.push(("prefix"@, String::json(v.prefix)));
        let m = m.push(("published"@, bool::json(v.published)));
        let m = m.push(("reason"@, String::json(v.reason)));
        let m = m.push(("policy"@, Option::<PolicyVerdict>::json(v.policy)));
        let m = with_some::<LoopEvidence>(m, "loop_evidence"@, v.loop_evidence);
        let m = with_items::<SuppressionEvidence>(m, "suppressed"@, v.suppressed);
        let m = m.push(("route"@, Option::<Route>::json(v.route)));
        JsonView::Object(m)
    }

    fn to_json(&self) -> (r: Json) {
        let mut m = Members::new();
        m.put("session", &self.session);
        m.put("to", &self.to);
        m.put("prefix", &self.prefix);
        m.put("published", &self.published);
        m.put("reason", &self.reason);
        m.put("policy", &self.policy);
        m.put_some("loop_evidence", &self.loop_evidence);
        m.put_items("suppressed", &self.suppressed);
        m.put("route", &self.route);
        m.object()
    }
}

impl ToJson for Step {
    open spec fn json(v: StepView) -> JsonView {
        let m = Seq::empty();
        let m = m.push(("seq"@, usize::json(v.seq)));
        let m = m.push(("tick"@, u64::json(v.tick)));
        let m = m.push(("kind"@, StepKind::json(v.kind)));
        let m = m.push(("node"@, String::json(v.node)));
        let m = m.push(("prefix"@, Option::<String>::json(v.prefix)));
        let m = m.push(("summary"@, String::json(v.summary)));
        let m = m.push(("receive"@, Option::<ReceiveRecord>::json(v.receive)));
        let m = with_items::<ExportRecord>(m, "exports"@, v.exports);
        let m = with_some::<SelectionReport>(m, "selection"@, v.selection);
        JsonView::Object(m)
    }

    fn to_json(&self) -> (r: Json) {
        let mut m = Members::new();
        m.put("seq", &self.seq);
        m.put("tick", &self.tick);
        m.put("kind", &self.kind);
        m.put("node", &self.node);
        m.put("prefix", &self.prefix);
        m.put("summary", &self.summary);
        m.put("receive", &self.receive);
        m.put_items("exports", &self.exports);
        m.put_some("selection", &self.selection);
        m.object()
    }
}

// ---------- laws ----------

/// A session is written with its id, its ends, its kind and its delay.
pub proof fn law_session_is_written_whole(v: SessionView)
    ensures
        ({
            let j = Session::json(v);
            &&& has_member(j, "id"@, JsonView::Text(v.id))
            &&& has_member(j, "local"@, JsonView::Text(v.local))
            &&& has_member(j, "remote"@, JsonView::Text(v.remote))
            &&& has_member(j, "kind"@, SessionKind::json(v.kind))
            &&& has_member(j, "delay"@, JsonView::Number(decimal(v.delay as int)))
            &&& has_size(j, 5)
        }),
{
    let m = Seq::<(Chars, JsonView)>::empty();
    lemma_pushed(m, ("id"@, String::json(v.id)));
    let m = m.push(("id"@, String::json(v.id)));
    lemma_pushed(m, ("local"@, String::json(v.local)));
    let m = m.push(("local"@, String::json(v.local)));
    lemma_pushed(m, ("remote"@, String::json(v.remote)));
    let m = m.push(("remote"@, String::json(v.remote)));
    lemma_pushed(m, ("kind"@, SessionKind::json(v.kind)));
    let m = m.push(("kind"@, SessionKind::json(v.kind)));
    lemma_pushed(m, ("delay"@, u64::json(v.delay)));
    let m = m.push(("delay"@, u64::json(v.delay)));
    assert(Session::json(v)->Object_0 == m);
}

/// A match is written with its peer and its prefix, and with every other condition that it has.
pub proof fn law_match_is_written_whole(v: MatchView)
    ensures
        ({
            let j = Match::json(v);
            &&& has_member(j, "peer"@, Option::<String>::json(v.peer))
            &&& has_member(j, "prefix"@, Option::<String>::json(v.prefix))
            &&& v.prefix_cmp is Some ==> has_member(j, "prefix_cmp"@, Cmp::json(v.prefix_cmp->0))
            &&& v.as_path_len is Some ==> has_member(
                j,
                "as_path_len"@,
                usize::json(v.as_path_len->0),
            )
            &&& v.as_path_len_cmp is Some ==> has_member(
                j,
                "as_path_len_cmp"@,
                Cmp::json(v.as_path_len_cmp->0),
            )
            &&& v.as_path_contains.len() > 0 ==> has_member(
                j,
                "as_path_contains"@,
                Vec::<u32>::json(v.as_path_contains),
            )
            &&& v.local_pref is Some ==> has_member(j, "local_pref"@, i64::json(v.local_pref->0))
            &&& v.local_pref_cmp is Some ==> has_member(
                j,
                "local_pref_cmp"@,
                Cmp::json(v.local_pref_cmp->0),
            )
            &&& v.med is Some ==> has_member(j, "med"@, i64::json(v.med->0))
            &&& v.med_cmp is Some ==> has_member(j, "med_cmp"@, Cmp::json(v.med_cmp->0))
            &&& v.community_any.len() > 0 ==> has_member(
                j,
                "community_any"@,
                Vec::<String>::json(v.community_any),
            )
            &&& v.community_any_cmp is Some ==> has_member(
                j,
                "community_any_cmp"@,
                Cmp::json(v.community_any_cmp->0),
            )
            &&& has_size(
                j,
                2
                    + counted(v.prefix_cmp is Some)
                    + counted(v.as_path_len is Some)
                    + counted(v.as_path_len_cmp is Some)
                    + counted(v.as_path_contains.len() > 0)
                    + counted(v.local_pref is Some)
                    + counted(v.local_pref_cmp is Some)
                    + counted(v.med is Some)
                    + counted(v.med_cmp is Some)
                    + counted(v.community_any.len() > 0)
                    + counted(v.community_any_cmp is Some),
            )
        }),
{
    let m = Seq::<(Chars, JsonView)>::empty();
    lemma_pushed(m, ("peer"@, Option::<String>::json(v.peer)));
    let m = m.push(("peer"@, Option::<String>::json(v.peer)));
    lemma_pushed(m, ("prefix"@, Option::<String>::json(v.prefix)));
    let m = m.push(("prefix"@, Option::<String>::json(v.prefix)));
    lemma_with_some::<Cmp>(m, "prefix_cmp"@, v.prefix_cmp);
    let m = with_some::<Cmp>(m, "prefix_cmp"@, v.prefix_cmp);
    lemma_with_some::<usize>(m, "as_path_len"@, v.as_path_len);
    let m = with_some::<usize>(m, "as_path_len"@, v.as_path_len);
    lemma_with_some::<Cmp>(m, "as_path_len_cmp"@, v.as_path_len_cmp);
    let m = with_some::<Cmp>(m, "as_path_len_cmp"@, v.as_path_len_cmp);
    lemma_with_items::<u32>(m, "as_path_contains"@, v.as_path_contains);
    let m = with_items::<u32>(m, "as_path_contains"@, v.as_path_contains);
    lemma_with_some::<i64>(m, "local_pref"@, v.local_pref);
    let m = with_some::<i64>(m, "local_pref"@, v.local_pref);
    lemma_with_some::<Cmp>(m, "local_pref_cmp"@, v.local_pref_cmp);
    let m = with_some::<Cmp>(m, "local_pref_cmp"@, v.local_pref_cmp);
    lemma_with_some::<i64>(m, "med"@, v.med);
    let m = with_some::<i64>(m, "med"@, v.med);
    lemma_with_some::<Cmp>(m, "med_cmp"@, v.med_cmp);
    let m = with_some::<Cmp>(m, "med_cmp"@, v.med_cmp);
    lemma_with_items::<String>(m, "community_any"@, v.community_any);
    let m = with_items::<String>(m, "community_any"@, v.community_any);
    lemma_with_some::<Cmp>(m, "community_any_cmp"@, v.community_any_cmp);
    let m = with_some::<Cmp>(m, "community_any_cmp"@, v.community_any_cmp);
    assert(Match::json(v)->Object_0 == m);
}

/// An action is written with everything that it rewrites, and nothing else.
pub proof fn law_action_is_written_whole(v: ActionView)
    ensures
        ({
            let j = Action::json(v);
            &&& v.set_local_pref is Some ==> has_member(
                j,
                "set_local_pref"@,
                JsonView::Number(decimal(v.set_local_pref->0 as int)),
            )
            &&& v.set_med is Some ==> has_member(
                j,
                "set_med"@,
                JsonView::Number(decimal(v.set_med->0 as int)),
            )
            &&& v.add_community is Some ==> has_member(
                j,
                "add_community"@,
                JsonView::Text(v.add_community->0),
            )
            &&& v.remove_communities.len() > 0 ==> has_member(
                j,
                "remove_communities"@,
                Vec::<String>::json(v.remove_communities),
            )
            &&& v.as_path_prepend is Some ==> has_member(
                j,
                "as_path_prepend"@,
                JsonView::Number(decimal(v.as_path_prepend->0 as int)),
            )
            &&& has_size(
                j,
                counted(v.set_local_pref is Some)
                    + counted(v.set_med is Some)
                    + counted(v.add_community is Some)
                    + counted(v.remove_communities.len() > 0)
                    + counted(v.as_path_prepend is Some),
            )
        }),
{
    let m = Seq::<(Chars, JsonView)>::empty();
    lemma_with_some::<i64>(m, "set_local_pref"@, v.set_local_pref);
    let m = with_some::<i64>(m, "set_local_pref"@, v.set_local_pref);
    lemma_with_some::<i64>(m, "set_med"@, v.set_med);
    let m = with_some::<i64>(m, "set_med"@, v.set_med);
    lemma_with_some::<String>(m, "add_community"@, v.add_community);
    let m = with_some::<String>(m, "add_community"@, v.add_community);
    lemma_with_items::<String>(m, "remove_communities"@, v.remove_communities);
    let m = with_items::<String>(m, "remove_communities"@, v.remove_communities);
    lemma_with_some::<u32>(m, "as_path_prepend"@, v.as_path_prepend);
    let m = with_some::<u32>(m, "as_path_prepend"@, v.as_path_prepend);
    assert(Action::json(v)->Object_0 == m);
}

/// A rule is written with its id and description, its conditions, its action and what it
/// decides.
pub proof fn law_rule_is_written_whole(v: RuleView)
    ensures
        ({
            let j = Rule::json(v);
            &&& has_member(j, "id"@, JsonView::Text(v.id))
            &&& has_member(j, "description"@, JsonView::Text(v.description))
            &&& has_member(j, "when"@, Match::json(v.when))
            &&& has_member(j, "do"@, Action::json(v.do_))
            &&& has_member(j, "on_match"@, OnMatch::json(v.on_match))
            &&& has_size(j, 5)
        }),
{
    let m = Seq::<(Chars, JsonView)>::empty();
    lemma_pushed(m, ("id"@, String::json(v.id)));
    let m = m.push(("id"@, String::json(v.id)));
    lemma_pushed(m, ("description"@, String::json(v.description)));
    let m = m.push(("description"@, String::json(v.description)));
    lemma_pushed(m, ("when"@, Match::json(v.when)));
    let m = m.push(("when"@, Match::json(v.when)));
    lemma_pushed(m, ("do"@, Action::json(v.do_)));
    let m = m.push(("do"@, Action::json(v.do_)));
    lemma_pushed(m, ("on_match"@, OnMatch::json(v.on_match)));
    let m = m.push(("on_match"@, OnMatch::json(v.on_match)));
    assert(Rule::json(v)->Object_0 == m);
}

/// A policy is written with both its lists of rules.
pub proof fn law_policy_is_written_whole(v: PolicyView)
    ensures
        ({
            let j = Policy::json(v);
            &&& has_member(j, "import"@, Vec::<Rule>::json(v.import))
            &&& has_member(j, "export"@, Vec::<Rule>::json(v.export))
            &&& has_size(j, 2)
        }),
{
    let m = Seq::<(Chars, JsonView)>::empty();
    lemma_pushed(m, ("import"@, Vec::<Rule>::json(v.import)));
    let m = m.push(("import"@, Vec::<Rule>::json(v.import)));
    lemma_pushed(m, ("export"@, Vec::<Rule>::json(v.export)));
    let m = m.push(("export"@, Vec::<Rule>::json(v.export)));
    assert(Policy::json(v)->Object_0 == m);
}

/// An announcement is written with its id, where it is made and the attributes of its route.
pub proof fn law_announcement_is_written_whole(v: AnnouncementView)
    ensures
        ({
            let j = Announcement::json(v);
            &&& has_member(j, "id"@, JsonView::Text(v.id))
            &&& has_member(j, "node"@, JsonView::Text(v.node))
            &&& has_member(j, "prefix"@, JsonView::Text(v.prefix))
            &&& has_member(j, "local_pref"@, JsonView::Number(decimal(v.local_pref as int)))
            &&& has_member(j, "med"@, Option::<i64>::json(v.med))
            &&& has_member(j, "communities"@, Vec::<String>::json(v.communities))
            &&& has_size(j, 6)
        }),
{
    let m = Seq::<(Chars, JsonView)>::empty();
    lemma_pushed(m, ("id"@, String::json(v.id)));
    let m = m.push(("id"@, String::json(v.id)));
    lemma_pushed(m, ("node"@, String::json(v.node)));
    let m = m.push(("node"@, String::json(v.node)));
    lemma_pushed(m, ("prefix"@, String::json(v.prefix)));
    let m = m.push(("prefix"@, String::json(v.prefix)));
    lemma_pushed(m, ("local_pref"@, i64::json(v.local_pref)));
    let m = m.push(("local_pref"@, i64::json(v.local_pref)));
    lemma_pushed(m, ("med"@, Option::<i64>::json(v.med)));
    let m = m.push(("med"@, Option::<i64>::json(v.med)));
    lemma_pushed(m, ("communities"@, Vec::<String>::json(v.communities)));
    let m = m.push(("communities"@, Vec::<String>::json(v.communities)));
    assert(Announcement::json(v)->Object_0 == m);
}

/// A node is written with its AS, where it is drawn and its policy.
pub proof fn law_node_is_written_whole(v: NodeSpecView)
    ensures
        ({
            let j = NodeSpec::json(v);
            &&& has_member(j, "asn"@, JsonView::Number(decimal(v.asn as int)))
            &&& has_member(j, "x"@, JsonView::Number(v.x))
            &&& has_member(j, "y"@, JsonView::Number(v.y))
            &&& has_member(j, "policy"@, Policy::json(v.policy))
            &&& has_size(j, 4)
        }),
{
    let m = Seq::<(Chars, JsonView)>::empty();
    lemma_pushed(m, ("asn"@, u32::json(v.asn)));
    let m = m.push(("asn"@, u32::json(v.asn)));
    lemma_pushed(m, ("x"@, JsonView::Number(v.x)));
    let m = m.push(("x"@, JsonView::Number(v.x)));
    lemma_pushed(m, ("y"@, JsonView::Number(v.y)));
    let m = m.push(("y"@, JsonView::Number(v.y)));
    lemma_pushed(m, ("policy"@, Policy::json(v.policy)));
    let m = m.push(("policy"@, Policy::json(v.policy)));
    assert(NodeSpec::json(v)->Object_0 == m);
}

/// A scenario is written with all its parts.
pub proof fn law_scenario_is_written_whole(v: ScenarioInputView)
    ensures
        ({
            let j = ScenarioInput::json(v);
            &&& has_member(j, "name"@, JsonView::Text(v.name))
            &&& has_member(j, "description"@, JsonView::Text(v.description))
            &&& has_member(j, "nodes"@, OrdMap::<String, NodeSpec>::json(v.nodes))
            &&& has_member(j, "sessions"@, Vec::<Session>::json(v.sessions))
            &&& has_member(j, "announcements"@, Vec::<Announcement>::json(v.announcements))
            &&& has_member(j, "events"@, Vec::<EventSpec>::json(v.events))
            &&& has_member(j, "max_iterations"@, JsonView::Number(decimal(v.max_iterations as int)))
            &&& has_size(j, 7)
        }),
{
    let m = Seq::<(Chars, JsonView)>::empty();
    lemma_pushed(m, ("name"@, String::json(v.name)));
    let m = m.push(("name"@, String::json(v.name)));
    lemma_pushed(m, ("description"@, String::json(v.description)));
    let m = m.push(("description"@, String::json(v.description)));
    lemma_pushed(m, ("nodes"@, OrdMap::<String, NodeSpec>::json(v.nodes)));
    let m = m.push(("nodes"@, OrdMap::<String, NodeSpec>::json(v.nodes)));
    lemma_pushed(m, ("sessions"@, Vec::<Session>::json(v.sessions)));
    let m = m.push(("sessions"@, Vec::<Session>::json(v.sessions)));
    lemma_pushed(m, ("announcements"@, Vec::<Announcement>::json(v.announcements)));
    let m = m.push(("announcements"@, Vec::<Announcement>::json(v.announcements)));
    lemma_pushed(m, ("events"@, Vec::<EventSpec>::json(v.events)));
    let m = m.push(("events"@, Vec::<EventSpec>::json(v.events)));
    lemma_pushed(m, ("max_iterations"@, usize::json(v.max_iterations)));
    let m = m.push(("max_iterations"@, usize::json(v.max_iterations)));
    assert(ScenarioInput::json(v)->Object_0 == m);
}

/// A route is written with all its attributes.
pub proof fn law_route_is_written_whole(v: RouteView)
    ensures
        ({
            let j = Route::json(v);
            &&& has_member(j, "prefix"@, JsonView::Text(v.prefix))
            &&& has_member(j, "as_path"@, Vec::<u32>::json(v.as_path))
            &&& has_member(j, "local_pref"@, JsonView::Number(decimal(v.local_pref as int)))
            &&& has_member(j, "med"@, Option::<i64>::json(v.med))
            &&& has_member(j, "communities"@, Vec::<String>::json(v.communities))
            &&& has_member(j, "provenance"@, Provenance::json(v.provenance))
            &&& has_member(j, "ingress_session"@, Option::<String>::json(v.ingress_session))
            &&& has_member(j, "first_as"@, Option::<u32>::json(v.first_as))
            &&& has_size(j, 8)
        }),
{
    let m = Seq::<(Chars, JsonView)>::empty();
    lemma_pushed(m, ("prefix"@, String::json(v.prefix)));
    let m = m.push(("prefix"@, String::json(v.prefix)));
    lemma_pushed(m, ("as_path"@, Vec::<u32>::json(v.as_path)));
    let m = m.push(("as_path"@, Vec::<u32>::json(v.as_path)));
    lemma_pushed(m, ("local_pref"@, i64::json(v.local_pref)));
    let m = m.push(("local_pref"@, i64::json(v.local_pref)));
    lemma_pushed(m, ("med"@, Option::<i64>::json(v.med)));
    let m = m.push(("med"@, Option::<i64>::json(v.med)));
    lemma_pushed(m, ("communities"@, Vec::<String>::json(v.communities)));
    let m = m.push(("communities"@, Vec::<String>::json(v.communities)));
    lemma_pushed(m, ("provenance"@, Provenance::json(v.provenance)));
    let m = m.push(("provenance"@, Provenance::json(v.provenance)));
    lemma_pushed(m, ("ingress_session"@, Option::<String>::json(v.ingress_session)));
    let m = m.push(("ingress_session"@, Option::<String>::json(v.ingress_session)));
    lemma_pushed(m, ("first_as"@, Option::<u32>::json(v.first_as)));
    let m = m.push(("first_as"@, Option::<u32>::json(v.first_as)));
    assert(Route::json(v)->Object_0 == m);
}

/// An entry of a trace is written with its rule, its outcome and, where there is one, the route
/// behind it.
pub proof fn law_trace_entry_is_written_whole(v: RuleTraceEntryView)
    ensures
        ({
            let j = RuleTraceEntry::json(v);
            &&& has_member(j, "index"@, JsonView::Number(decimal(v.index as int)))
            &&& has_member(j, "rule"@, JsonView::Text(v.rule))
            &&& has_member(j, "outcome"@, RuleOutcome::json(v.outcome))
            &&& has_member(j, "detail"@, JsonView::Text(v.detail))
            &&& v.after is Some ==> has_member(j, "after"@, Route::json(v.after->0))
            &&& has_size(j, 4 + counted(v.after is Some))
        }),
{
    let m = Seq::<(Chars, JsonView)>::empty();
    lemma_pushed(m, ("index"@, usize::json(v.index)));
    let m = m.push(("index"@, usize::json(v.index)));
    lemma_pushed(m, ("rule"@, String::json(v.rule)));
    let m = m.push(("rule"@, String::json(v.rule)));
    lemma_pushed(m, ("outcome"@, RuleOutcome::json(v.outcome)));
    let m = m.push(("outcome"@, RuleOutcome::json(v.outcome)));
    lemma_pushed(m, ("detail"@, String::json(v.detail)));
    let m = m.push(("detail"@, String::json(v.detail)));
    lemma_with_some::<Route>(m, "after"@, v.after);
    let m = with_some::<Route>(m, "after"@, v.after);
    assert(RuleTraceEntry::json(v)->Object_0 == m);
}

/// A verdict is written with its decision, its reason and its trace.
pub proof fn law_verdict_is_written_whole(v: PolicyVerdictView)
    ensures
        ({
            let j = PolicyVerdict::json(v);
            &&& has_member(j, "decision"@, Verdict::json(v.decision))
            &&& has_member(j, "reason"@, JsonView::Text(v.reason))
            &&& has_member(j, "defaulted"@, JsonView::Bool(v.defaulted))
            &&& has_member(j, "trace"@, Vec::<RuleTraceEntry>::json(v.trace))
            &&& has_size(j, 4)
        }),
{
    let m = Seq::<(Chars, JsonView)>::empty();
    lemma_pushed(m, ("decision"@, Verdict::json(v.decision)));
    let m = m.push(("decision"@, Verdict::json(v.decision)));
    lemma_pushed(m, ("reason"@, String::json(v.reason)));
    let m = m.push(("reason"@, String::json(v.reason)));
    lemma_pushed(m, ("defaulted"@, bool::json(v.defaulted)));
    let m = m.push(("defaulted"@, bool::json(v.defaulted)));
    lemma_pushed(m, ("trace"@, Vec::<RuleTraceEntry>::json(v.trace)));
    let m = m.push(("trace"@, Vec::<RuleTraceEntry>::json(v.trace)));
    assert(PolicyVerdict::json(v)->Object_0 == m);
}

/// A stage of a selection is written with what it is and what it retained.
pub proof fn law_stage_is_written_whole(v: StageReportView)
    ensures
        ({
            let j = StageReport::json(v);
            &&& has_member(j, "stage"@, JsonView::Number(decimal(v.stage as int)))
            &&& has_member(j, "name"@, JsonView::Text(v.name))
            &&& has_member(j, "detail"@, JsonView::Text(v.detail))
            &&& has_member(j, "retained"@, Vec::<String>::json(v.retained))
            &&& has_size(j, 4)
        }),
{
    let m = Seq::<(Chars, JsonView)>::empty();
    lemma_pushed(m, ("stage"@, usize::json(v.stage)));
    let m = m.push(("stage"@, usize::json(v.stage)));
    lemma_pushed(m, ("name"@, String::json(v.name)));
    let m = m.push(("name"@, String::json(v.name)));
    lemma_pushed(m, ("detail"@, String::json(v.detail)));
    let m = m.push(("detail"@, String::json(v.detail)));
    lemma_pushed(m, ("retained"@, Vec::<String>::json(v.retained)));
    let m = m.push(("retained"@, Vec::<String>::json(v.retained)));
    assert(StageReport::json(v)->Object_0 == m);
}

/// A selection is written with its winner, its equal peer and its stages.
pub proof fn law_selection_is_written_whole(v: SelectionReportView)
    ensures
        ({
            let j = SelectionReport::json(v);
            &&& has_member(j, "winner"@, Option::<String>::json(v.winner))
            &&& has_member(j, "equal_peer"@, Option::<String>::json(v.equal_peer))
            &&& has_member(j, "stages"@, Vec::<StageReport>::json(v.stages))
            &&& has_member(j, "tie_key_winner"@, Option::<String>::json(v.tie_key_winner))
            &&& has_size(j, 4)
        }),
{
    let m = Seq::<(Chars, JsonView)>::empty();
    lemma_pushed(m, ("winner"@, Option::<String>::json(v.winner)));
    let m = m.push(("winner"@, Option::<String>::json(v.winner)));
    lemma_pushed(m, ("equal_peer"@, Option::<String>::json(v.equal_peer)));
    let m = m.push(("equal_peer"@, Option::<String>::json(v.equal_peer)));
    lemma_pushed(m, ("stages"@, Vec::<StageReport>::json(v.stages)));
    let m = m.push(("stages"@, Vec::<StageReport>::json(v.stages)));
    lemma_pushed(m, ("tie_key_winner"@, Option::<String>::json(v.tie_key_winner)));
    let m = m.push(("tie_key_winner"@, Option::<String>::json(v.tie_key_winner)));
    assert(SelectionReport::json(v)->Object_0 == m);
}

/// A loop is written with the session, the path and the AS that show it.
pub proof fn law_loop_is_written_whole(v: LoopEvidenceView)
    ensures
        ({
            let j = LoopEvidence::json(v);
            &&& has_member(j, "kind"@, JsonView::Text(v.kind))
            &&& has_member(j, "detail"@, JsonView::Text(v.detail))
            &&& has_member(j, "session"@, JsonView::Text(v.session))
            &&& has_member(j, "as_path"@, Vec::<u32>::json(v.as_path))
            &&& has_member(j, "own_as"@, JsonView::Number(decimal(v.own_as as int)))
            &&& has_size(j, 5)
        }),
{
    let m = Seq::<(Chars, JsonView)>::empty();
    lemma_pushed(m, ("kind"@, String::json(v.kind)));
    let m = m.push(("kind"@, String::json(v.kind)));
    lemma_pushed(m, ("detail"@, String::json(v.detail)));
    let m = m.push(("detail"@, String::json(v.detail)));
    lemma_pushed(m, ("session"@, String::json(v.session)));
    let m = m.push(("session"@, String::json(v.session)));
    lemma_pushed(m, ("as_path"@, Vec::<u32>::json(v.as_path)));
    let m = m.push(("as_path"@, Vec::<u32>::json(v.as_path)));
    lemma_pushed(m, ("own_as"@, u32::json(v.own_as)));
    let m = m.push(("own_as"@, u32::json(v.own_as)));
    assert(LoopEvidence::json(v)->Object_0 == m);
}

/// A suppression is written with its session and its reason.
pub proof fn law_suppression_is_written_whole(v: SuppressionEvidenceView)
    ensures
        ({
            let j = SuppressionEvidence::json(v);
            &&& has_member(j, "session"@, JsonView::Text(v.session))
            &&& has_member(j, "reason"@, JsonView::Text(v.reason))
            &&& has_member(j, "detail"@, JsonView::Text(v.detail))
            &&& has_size(j, 3)
        }),
{
    let m = Seq::<(Chars, JsonView)>::empty();
    lemma_pushed(m, ("session"@, String::json(v.session)));
    let m = m.push(("session"@, String::json(v.session)));
    lemma_pushed(m, ("reason"@, String::json(v.reason)));
    let m = m.push(("reason"@, String::json(v.reason)));
    lemma_pushed(m, ("detail"@, String::json(v.detail)));
    let m = m.push(("detail"@, String::json(v.detail)));
    assert(SuppressionEvidence::json(v)->Object_0 == m);
}

/// What was received is written with where it came from, what became of it and the best route
/// behind it.
pub proof fn law_receipt_is_written_whole(v: ReceiveRecordView)
    ensures
        ({
            let j = ReceiveRecord::json(v);
            &&& has_member(j, "session"@, JsonView::Text(v.session))
            &&& has_member(j, "from"@, JsonView::Text(v.from))
            &&& has_member(j, "prefix"@, JsonView::Text(v.prefix))
            &&& has_member(j, "accepted"@, JsonView::Bool(v.accepted))
            &&& has_member(j, "reason"@, JsonView::Text(v.reason))
            &&& has_member(j, "policy"@, PolicyVerdict::json(v.policy))
            &&& v.loop_evidence is Some ==> has_member(
                j,
                "loop_evidence"@,
                LoopEvidence::json(v.loop_evidence->0),
            )
            &&& has_member(j, "route_after"@, Option::<Route>::json(v.route_after))
            &&& has_member(j, "best_changed"@, JsonView::Bool(v.best_changed))
            &&& has_member(j, "best"@, Option::<Route>::json(v.best))
            &&& has_size(j, 9 + counted(v.loop_evidence is Some))
        }),
{
    let m = Seq::<(Chars, JsonView)>::empty();
    lemma_pushed(m, ("session"@, String::json(v.session)));
    let m = m.push(("session"@, String::json(v.session)));
    lemma_pushed(m, ("from"@, String::json(v.from)));
    let m = m.push(("from"@, String::json(v.from)));
    lemma_pushed(m, ("prefix"@, String::json(v.prefix)));
    let m = m.push(("prefix"@, String::json(v.prefix)));
    lemma_pushed(m, ("accepted"@, bool::json(v.accepted)));
    let m = m.push(("accepted"@, bool::json(v.accepted)));
    lemma_pushed(m, ("reason"@, String::json(v.reason)));
    let m = m.push(("reason"@, String::json(v.reason)));
    lemma_pushed(m, ("policy"@, PolicyVerdict::json(v.policy)));
    let m = m.push(("policy"@, PolicyVerdict::json(v.policy)));
    lemma_with_some::<LoopEvidence>(m, "loop_evidence"@, v.loop_evidence);
    let m = with_some::<LoopEvidence>(m, "loop_evidence"@, v.loop_evidence);
    lemma_pushed(m, ("route_after"@, Option::<Route>::json(v.route_after)));
    let m = m.push(("route_after"@, Option::<Route>::json(v.route_after)));
    lemma_pushed(m, ("best_changed"@, bool::json(v.best_changed)));
    let m = m.push(("best_changed"@, bool::json(v.best_changed)));
    lemma_pushed(m, ("best"@, Option::<Route>::json(v.best)));
    let m = m.push(("best"@, Option::<Route>::json(v.best)));
    assert(ReceiveRecord::json(v)->Object_0 == m);
}

/// What was published is written with where it went, what became of it and the route.
pub proof fn law_publication_is_written_whole(v: ExportRecordView)
    ensures
        ({
            let j = ExportRecord::json(v);
            &&& has_member(j, "session"@, JsonView::Text(v.session))
            &&& has_member(j, "to"@, JsonView::Text(v.to))
            &&& has_member(j, "prefix"@, JsonView::Text(v.prefix))
            &&& has_member(j, "published"@, JsonView::Bool(v.published))
            &&& has_member(j, "reason"@, JsonView::Text(v.reason))
            &&& has_member(j, "policy"@, Option::<PolicyVerdict>::json(v.policy))
            &&& v.loop_evidence is Some ==> has_member(
                j,
                "loop_evidence"@,
                LoopEvidence::json(v.loop_evidence->0),
            )
            &&& v.suppressed.len() > 0 ==> has_member(
                j,
                "suppressed"@,
                Vec::<SuppressionEvidence>::json(v.suppressed),
            )
            &&& has_member(j, "route"@, Option::<Route>::json(v.route))
            &&& has_size(j, 7 + counted(v.loop_evidence is Some) + counted(v.suppressed.len() > 0))
        }),
{
    let m = Seq::<(Chars, JsonView)>::empty();
    lemma_pushed(m, ("session"@, String::json(v.session)));
    let m = m.push(("session"@, String::json(v.session)));
    lemma_pushed(m, ("to"@, String::json(v.to)));
    let m = m.push(("to"@, String::json(v.to)));
    lemma_pushed(m, ("prefix"@, String::json(v.prefix)));
    let m = m.push(("prefix"@, String::json(v.prefix)));
    lemma_pushed(m, ("published"@, bool::json(v.published)));
    let m = m.push(("published"@, bool::json(v.published)));
    lemma_pushed(m, ("reason"@, String::json(v.reason)));
    let m = m.push(("reason"@, String::json(v.reason)));
    lemma_pushed(m, ("policy"@, Option::<PolicyVerdict>::json(v.policy)));
    let m = m.push(("policy"@, Option::<PolicyVerdict>::json(v.policy)));
    lemma_with_some::<LoopEvidence>(m, "loop_evidence"@, v.loop_evidence);
    let m = with_some::<LoopEvidence>(m, "loop_evidence"@, v.loop_evidence);
    lemma_with_items::<SuppressionEvidence>(m, "suppressed"@, v.suppressed);
    let m = with_items::<SuppressionEvidence>(m, "suppressed"@, v.suppressed);
    lemma_pushed(m, ("route"@, Option::<Route>::json(v.route)));
    let m = m.push(("route"@, Option::<Route>::json(v.route)));
    assert(ExportRecord::json(v)->Object_0 == m);
}

/// A step is written with when and where it was taken, what it took in and what came of it.
pub proof fn law_step_is_written_whole(v: StepView)
    ensures
        ({
            let j = Step::json(v);
            &&& has_member(j, "seq"@, JsonView::Number(decimal(v.seq as int)))
            &&& has_member(j, "tick"@, JsonView::Number(decimal(v.tick as int)))
            &&& has_member(j, "kind"@, StepKind::json(v.kind))
            &&& has_member(j, "node"@, JsonView::Text(v.node))
            &&& has_member(j, "prefix"@, Option::<String>::json(v.prefix))
            &&& has_member(j, "summary"@, JsonView::Text(v.summary))
            &&& has_member(j, "receive"@, Option::<ReceiveRecord>::json(v.receive))
            &&& v.exports.len() > 0 ==> has_member(
                j,
                "exports"@,
                Vec::<ExportRecord>::json(v.exports),
            )
            &&& v.selection is Some ==> has_member(
                j,
                "selection"@,
                SelectionReport::json(v.selection->0),
            )
            &&& has_size(j, 7 + counted(v.exports.len() > 0) + counted(v.selection is Some))
        }),
{
    let m = Seq::<(Chars, JsonView)>::empty();
    lemma_pushed(m, ("seq"@, usize::json(v.seq)));
    let m = m.push(("seq"@, usize::json(v.seq)));
    lemma_pushed(m, ("tick"@, u64::json(v.tick)));
    let m = m.push(("tick"@, u64::json(v.tick)));
    lemma_pushed(m, ("kind"@, StepKind::json(v.kind)));
    let m = m.push(("kind"@, StepKind::json(v.kind)));
    lemma_pushed(m, ("node"@, String::json(v.node)));
    let m = m.push(("node"@, String::json(v.node)));
    lemma_pushed(m, ("prefix"@, Option::<String>::json(v.prefix)));
    let m = m.push(("prefix"@, Option::<String>::json(v.prefix)));
    lemma_pushed(m, ("summary"@, String::json(v.summary)));
    let m = m.push(("summary"@, String::json(v.summary)));
    lemma_pushed(m, ("receive"@, Option::<ReceiveRecord>::json(v.receive)));
    let m = m.push(("receive"@, Option::<ReceiveRecord>::json(v.receive)));
    lemma_with_items::<ExportRecord>(m, "exports"@, v.exports);
    let m = with_items::<ExportRecord>(m, "exports"@, v.exports);
    lemma_with_some::<SelectionReport>(m, "selection"@, v.selection);
    let m = with_some::<SelectionReport>(m, "selection"@, v.selection);
    assert(Step::json(v)->Object_0 == m);
}

/// An event is written with what it is, its id, what it strikes and when.
pub proof fn law_event_is_written_whole(v: EventSpecView)
    ensures
        has_size(EventSpec::json(v), 4),
        v matches EventSpecView::Withdraw { id, announcement, tick } ==> {
            let j = EventSpec::json(v);
            &&& has_member(j, "type"@, JsonView::Text("withdraw"@))
            &&& has_member(j, "id"@, JsonView::Text(id))
            &&& has_member(j, "announcement"@, JsonView::Text(announcement))
            &&& has_member(j, "tick"@, JsonView::Number(decimal(tick as int)))
        },
        v matches EventSpecView::Restart { id, node, tick } ==> {
            let j = EventSpec::json(v);
            &&& has_member(j, "type"@, JsonView::Text("restart"@))
            &&& has_member(j, "id"@, JsonView::Text(id))
            &&& has_member(j, "node"@, JsonView::Text(node))
            &&& has_member(j, "tick"@, JsonView::Number(decimal(tick as int)))
        },
{
    let m = EventSpec::json(v)->Object_0;
    assert(m.contains(m[0]));
    assert(m.contains(m[1]));
    assert(m.contains(m[2]));
    assert(m.contains(m[3]));
}

/// The names of decisions, outcomes, kinds of steps and statuses tell them apart.
pub proof fn law_written_names_tell_apart(
    m: OnMatch,
    n: OnMatch,
    o: RuleOutcome,
    p: RuleOutcome,
    v: Verdict,
    w: Verdict,
    s: RunStatus,
    t: RunStatus,
)
    ensures
        OnMatch::json(m) == OnMatch::json(n) ==> m == n,
        RuleOutcome::json(o) == RuleOutcome::json(p) ==> o == p,
        Verdict::json(v) == Verdict::json(w) ==> v == w,
        RunStatus::json(s) == RunStatus::json(t) ==> s == t,
{
    reveal_strlit("continue");
    reveal_strlit("accept");
    reveal_strlit("reject");
    reveal_strlit("miss");
    reveal_strlit("hit-continue");
    reveal_strlit("hit-accept");
    reveal_strlit("hit-reject");
    reveal_strlit("stable");
    reveal_strlit("oscillation");
    reveal_strlit("inconclusive");
    assert("continue"@[0] == 'c' && "accept"@[0] == 'a' && "reject"@[0] == 'r');
    assert("miss"@[0] == 'm' && "hit-continue"@[0] == 'h' && "hit-continue"@[4] == 'c');
    assert("hit-accept"@[4] == 'a' && "hit-reject"@[4] == 'r');
    assert("hit-accept"@[0] == 'h' && "hit-reject"@[0] == 'h');
    assert("stable"@[0] == 's' && "oscillation"@[0] == 'o' && "inconclusive"@[0] == 'i');
}

/// The names of operators and of kinds of steps tell them apart.
pub proof fn law_operator_names_tell_apart(a: Cmp, b: Cmp, s: StepKind, t: StepKind)
    ensures
        Cmp::json(a) == Cmp::json(b) ==> a == b,
        StepKind::json(s) == StepKind::json(t) ==> s == t,
{
    reveal_strlit("eq");
    reveal_strlit("ne");
    reveal_strlit("in");
    reveal_strlit("not-in");
    reveal_strlit("matches");
    reveal_strlit("gte");
    reveal_strlit("lte");
    reveal_strlit("origin-inject");
    reveal_strlit("origin-withdraw");
    reveal_strlit("receive");
    reveal_strlit("withdraw");
    reveal_strlit("restart");
    reveal_strlit("refresh");
    assert("eq"@[0] == 'e' && "ne"@[0] == 'n' && "in"@[0] == 'i' && "not-in"@[0] == 'n');
    assert("ne"@[1] == 'e' && "not-in"@[1] == 'o');
    assert("matches"@[0] == 'm' && "gte"@[0] == 'g' && "lte"@[0] == 'l');
    assert("origin-inject"@[0] == 'o' && "origin-inject"@[7] == 'i');
    assert("origin-withdraw"@[0] == 'o' && "origin-withdraw"@[7] == 'w');
    assert("receive"@[0] == 'r' && "receive"@[2] == 'c');
    assert("restart"@[0] == 'r' && "restart"@[2] == 's');
    assert("refresh"@[0] == 'r' && "refresh"@[2] == 'f');
    assert("withdraw"@[0] == 'w');
}

} // verus!
