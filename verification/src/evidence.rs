//! What a simulation leaves behind: one step of evidence per processed message, and the
//! result of the whole run.

use crate::bestpath::{SelectionReport, SelectionReportView};
use crate::model::{NodeId, Prefix, Route, RouteView, SessionId};
use crate::ordmap::OrdMap;
use crate::policy::{PolicyVerdict, PolicyVerdictView};
use crate::text::Chars;
use crate::value::Value;
use vstd::prelude::*;

verus! {

/// What one dequeued message did.
#[derive(Clone, Copy, Debug, PartialEq, Eq, Structural)]
pub enum StepKind {
    OriginInject,
    OriginWithdraw,
    Receive,
    Withdraw,
    Restart,
    Refresh,
}

impl DeepView for StepKind {
    type V = StepKind;

    open spec fn deep_view(&self) -> StepKind {
        *self
    }
}

impl Value for StepKind {
    fn copy(&self) -> (r: Self) {
        *self
    }

    fn same(&self, other: &Self) -> (r: bool) {
        *self == *other
    }
}

/// Why a route was refused as a loop.
#[derive(Clone, Debug, PartialEq, Eq)]
pub struct LoopEvidence {
    pub kind: String,
    pub detail: String,
    pub session: String,
    pub as_path: Vec<u32>,
    pub own_as: u32,
}

/// What a [`LoopEvidence`] holds.
#[verifier::ext_equal]
pub struct LoopEvidenceView {
    pub kind: Chars,
    pub detail: Chars,
    pub session: Chars,
    pub as_path: Seq<u32>,
    pub own_as: u32,
}

impl View for LoopEvidence {
    type V = LoopEvidenceView;

    open spec fn view(&self) -> LoopEvidenceView {
        LoopEvidenceView {
            kind: self.kind.deep_view(),
            detail: self.detail.deep_view(),
            session: self.session.deep_view(),
            as_path: self.as_path.deep_view(),
            own_as: self.own_as,
        }
    }
}

impl DeepView for LoopEvidence {
    type V = LoopEvidenceView;

    open spec fn deep_view(&self) -> LoopEvidenceView {
        self@
    }
}

impl Value for LoopEvidence {
    fn copy(&self) -> (r: Self) {
        LoopEvidence {
            kind: self.kind.copy(),
            detail: self.detail.copy(),
            session: self.session.copy(),
            as_path: self.as_path.copy(),
            own_as: self.own_as,
        }
    }

    fn same(&self, other: &Self) -> (r: bool) {
        self.kind.same(&other.kind)
            && self.detail.same(&other.detail)
            && self.session.same(&other.session)
            && self.as_path.same(&other.as_path)
            && self.own_as == other.own_as
    }
}

/// Why no UPDATE was sent on a session.
#[derive(Clone, Debug, PartialEq, Eq)]
pub struct SuppressionEvidence {
    pub session: String,
    pub reason: String,
    pub detail: String,
}

/// What a [`SuppressionEvidence`] holds.
#[verifier::ext_equal]
pub struct SuppressionEvidenceView {
    pub session: Chars,
    pub reason: Chars,
    pub detail: Chars,
}

impl View for SuppressionEvidence {
    type V = SuppressionEvidenceView;

    open spec fn view(&self) -> SuppressionEvidenceView {
        SuppressionEvidenceView {
            session: self.session.deep_view(),
            reason: self.reason.deep_view(),
            detail: self.detail.deep_view(),
        }
    }
}

impl DeepView for SuppressionEvidence {
    type V = SuppressionEvidenceView;

    open spec fn deep_view(&self) -> SuppressionEvidenceView {
        self@
    }
}

impl Value for SuppressionEvidence {
    fn copy(&self) -> (r: Self) {
        SuppressionEvidence {
            session: self.session.copy(),
            reason: self.reason.copy(),
            detail: self.detail.copy(),
        }
    }

    fn same(&self, other: &Self) -> (r: bool) {
        self.session.same(&other.session)
            && self.reason.same(&other.reason)
            && self.detail.same(&other.detail)
    }
}

/// The evidence of a received UPDATE.
#[derive(Clone, Debug, PartialEq, Eq)]
pub struct ReceiveRecord {
    pub session: String,
    pub from: NodeId,
    pub prefix: Prefix,
    pub accepted: bool,
    pub reason: String,
    pub policy: PolicyVerdict,
    pub loop_evidence: Option<LoopEvidence>,
    pub route_after: Option<Route>,
    pub best_changed: bool,
    pub best: Option<Route>,
}

/// What a [`ReceiveRecord`] holds.
#[verifier::ext_equal]
pub struct ReceiveRecordView {
    pub session: Chars,
    pub from: Chars,
    pub prefix: Chars,
    pub accepted: bool,
    pub reason: Chars,
    pub policy: PolicyVerdictView,
    pub loop_evidence: Option<LoopEvidenceView>,
    pub route_after: Option<RouteView>,
    pub best_changed: bool,
    pub best: Option<RouteView>,
}

impl View for ReceiveRecord {
    type V = ReceiveRecordView;

    open spec fn view(&self) -> ReceiveRecordView {
        ReceiveRecordView {
            session: self.session.deep_view(),
            from: self.from.deep_view(),
            prefix: self.prefix.deep_view(),
            accepted: self.accepted,
            reason: self.reason.deep_view(),
            policy: self.policy.deep_view(),
            loop_evidence: self.loop_evidence.deep_view(),
            route_after: self.route_after.deep_view(),
            best_changed: self.best_changed,
            best: self.best.deep_view(),
        }
    }
}

impl DeepView for ReceiveRecord {
    type V = ReceiveRecordView;

    open spec fn deep_view(&self) -> ReceiveRecordView {
        self@
    }
}

impl Value for ReceiveRecord {
    fn copy(&self) -> (r: Self) {
        ReceiveRecord {
            session: self.session.copy(),
            from: self.from.copy(),
            prefix: self.prefix.copy(),
            accepted: self.accepted,
            reason: self.reason.copy(),
            policy: self.policy.copy(),
            loop_evidence: self.loop_evidence.copy(),
            route_after: self.route_after.copy(),
            best_changed: self.best_changed,
            best: self.best.copy(),
        }
    }

    fn same(&self, other: &Self) -> (r: bool) {
        self.session.same(&other.session)
            && self.from.same(&other.from)
            && self.prefix.same(&other.prefix)
            && self.accepted == other.accepted
            && self.reason.same(&other.reason)
            && self.policy.same(&other.policy)
            && self.loop_evidence.same(&other.loop_evidence)
            && self.route_after.same(&other.route_after)
            && self.best_changed == other.best_changed
            && self.best.same(&other.best)
    }
}

/// The evidence of one session that a best route was considered for.
#[derive(Clone, Debug, PartialEq, Eq)]
pub struct ExportRecord {
    pub session: String,
    pub to: NodeId,
    pub prefix: Prefix,
    pub published: bool,
    pub reason: String,
    pub policy: Option<PolicyVerdict>,
    pub loop_evidence: Option<LoopEvidence>,
    pub suppressed: Vec<SuppressionEvidence>,
    pub route: Option<Route>,
}

/// What a [`ExportRecord`] holds.
#[verifier::ext_equal]
pub struct ExportRecordView {
    pub session: Chars,
    pub to: Chars,
    pub prefix: Chars,
    pub published: bool,
    pub reason: Chars,
    pub policy: Option<PolicyVerdictView>,
    pub loop_evidence: Option<LoopEvidenceView>,
    pub suppressed: Seq<SuppressionEvidenceView>,
    pub route: Option<RouteView>,
}

impl View for ExportRecord {
    type V = ExportRecordView;

    open spec fn view(&self) -> ExportRecordView {
        ExportRecordView {
            session: self.session.deep_view(),
            to: self.to.deep_view(),
            prefix: self.prefix.deep_view(),
            published: self.published,
            reason: self.reason.deep_view(),
            policy: self.policy.deep_view(),
            loop_evidence: self.loop_evidence.deep_view(),
            suppressed: self.suppressed.deep_view(),
            route: self.route.deep_view(),
        }
    }
}

impl DeepView for ExportRecord {
    type V = ExportRecordView;

    open spec fn deep_view(&self) -> ExportRecordView {
        self@
    }
}

impl Value for ExportRecord {
    fn copy(&self) -> (r: Self) {
        ExportRecord {
            session: self.session.copy(),
            to: self.to.copy(),
            prefix: self.prefix.copy(),
            published: self.published,
            reason: self.reason.copy(),
            policy: self.policy.copy(),
            loop_evidence: self.loop_evidence.copy(),
            suppressed: self.suppressed.copy(),
            route: self.route.copy(),
        }
    }

    fn same(&self, other: &Self) -> (r: bool) {
        self.session.same(&other.session)
            && self.to.same(&other.to)
            && self.prefix.same(&other.prefix)
            && self.published == other.published
            && self.reason.same(&other.reason)
            && self.policy.same(&other.policy)
            && self.loop_evidence.same(&other.loop_evidence)
            && self.suppressed.same(&other.suppressed)
            && self.route.same(&other.route)
    }
}

/// The evidence of one processed message.
#[derive(Clone, Debug, PartialEq, Eq)]
pub struct Step {
    pub seq: usize,
    pub tick: u64,
    pub kind: StepKind,
    pub node: NodeId,
    pub prefix: Option<Prefix>,
    pub summary: String,
    pub receive: Option<ReceiveRecord>,
    pub exports: Vec<ExportRecord>,
    pub selection: Option<SelectionReport>,
}

/// What a [`Step`] holds.
#[verifier::ext_equal]
pub struct StepView {
    pub seq: usize,
    pub tick: u64,
    pub kind: StepKind,
    pub node: Chars,
    pub prefix: Option<Chars>,
    pub summary: Chars,
    pub receive: Option<ReceiveRecordView>,
    pub exports: Seq<ExportRecordView>,
    pub selection: Option<SelectionReportView>,
}

impl View for Step {
    type V = StepView;

    open spec fn view(&self) -> StepView {
        StepView {
            seq: self.seq,
            tick: self.tick,
            kind: self.kind,
            node: self.node.deep_view(),
            prefix: self.prefix.deep_view(),
            summary: self.summary.deep_view(),
            receive: self.receive.deep_view(),
            exports: self.exports.deep_view(),
            selection: self.selection.deep_view(),
        }
    }
}

impl DeepView for Step {
    type V = StepView;

    open spec fn deep_view(&self) -> StepView {
        self@
    }
}

impl Value for Step {
    fn copy(&self) -> (r: Self) {
        Step {
            seq: self.seq,
            tick: self.tick,
            kind: self.kind,
            node: self.node.copy(),
            prefix: self.prefix.copy(),
            summary: self.summary.copy(),
            receive: self.receive.copy(),
            exports: self.exports.copy(),
            selection: self.selection.copy(),
        }
    }

    fn same(&self, other: &Self) -> (r: bool) {
        self.seq == other.seq
            && self.tick == other.tick
            && self.kind == other.kind
            && self.node.same(&other.node)
            && self.prefix.same(&other.prefix)
            && self.summary.same(&other.summary)
            && self.receive.same(&other.receive)
            && self.exports.same(&other.exports)
            && self.selection.same(&other.selection)
    }
}

/// A route that stands advertised on a session at the end of a run.
#[derive(Clone, Debug, PartialEq, Eq)]
pub struct AdvertisedRoute {
    pub session: SessionId,
    pub from: NodeId,
    pub to: NodeId,
    pub prefix: Prefix,
    pub route: Route,
}

/// What a [`AdvertisedRoute`] holds.
#[verifier::ext_equal]
pub struct AdvertisedRouteView {
    pub session: Chars,
    pub from: Chars,
    pub to: Chars,
    pub prefix: Chars,
    pub route: RouteView,
}

impl View for AdvertisedRoute {
    type V = AdvertisedRouteView;

    open spec fn view(&self) -> AdvertisedRouteView {
        AdvertisedRouteView {
            session: self.session.deep_view(),
            from: self.from.deep_view(),
            to: self.to.deep_view(),
            prefix: self.prefix.deep_view(),
            route: self.route.deep_view(),
        }
    }
}

impl DeepView for AdvertisedRoute {
    type V = AdvertisedRouteView;

    open spec fn deep_view(&self) -> AdvertisedRouteView {
        self@
    }
}

impl Value for AdvertisedRoute {
    fn copy(&self) -> (r: Self) {
        AdvertisedRoute {
            session: self.session.copy(),
            from: self.from.copy(),
            to: self.to.copy(),
            prefix: self.prefix.copy(),
            route: self.route.copy(),
        }
    }

    fn same(&self, other: &Self) -> (r: bool) {
        self.session.same(&other.session)
            && self.from.same(&other.from)
            && self.to.same(&other.to)
            && self.prefix.same(&other.prefix)
            && self.route.same(&other.route)
    }
}

/// The best route of a node for a prefix at the end of a run.
#[derive(Clone, Debug, PartialEq, Eq)]
pub struct BestEntry {
    pub node: NodeId,
    pub prefix: Prefix,
    pub route: Route,
    pub equal_peer: Option<NodeId>,
}

/// What a [`BestEntry`] holds.
#[verifier::ext_equal]
pub struct BestEntryView {
    pub node: Chars,
    pub prefix: Chars,
    pub route: RouteView,
    pub equal_peer: Option<Chars>,
}

impl View for BestEntry {
    type V = BestEntryView;

    open spec fn view(&self) -> BestEntryView {
        BestEntryView {
            node: self.node.deep_view(),
            prefix: self.prefix.deep_view(),
            route: self.route.deep_view(),
            equal_peer: self.equal_peer.deep_view(),
        }
    }
}

impl DeepView for BestEntry {
    type V = BestEntryView;

    open spec fn deep_view(&self) -> BestEntryView {
        self@
    }
}

impl Value for BestEntry {
    fn copy(&self) -> (r: Self) {
        BestEntry {
            node: self.node.copy(),
            prefix: self.prefix.copy(),
            route: self.route.copy(),
            equal_peer: self.equal_peer.copy(),
        }
    }

    fn same(&self, other: &Self) -> (r: bool) {
        self.node.same(&other.node)
            && self.prefix.same(&other.prefix)
            && self.route.same(&other.route)
            && self.equal_peer.same(&other.equal_peer)
    }
}

/// The state of a node at the end of a run.
#[derive(Debug)]
pub struct NodeState {
    pub node: NodeId,
    pub best: OrdMap<Prefix, Route>,
    pub equal_peer: OrdMap<Prefix, NodeId>,
    /// What stands advertised, keyed by session and prefix with a bar between them.
    pub advertised: OrdMap<String, Route>,
}

/// What a [`NodeState`] holds.
#[verifier::ext_equal]
pub struct NodeStateView {
    pub node: Chars,
    pub best: Map<Chars, RouteView>,
    pub equal_peer: Map<Chars, Chars>,
    pub advertised: Map<Chars, RouteView>,
}

impl View for NodeState {
    type V = NodeStateView;

    open spec fn view(&self) -> NodeStateView {
        NodeStateView {
            node: self.node.deep_view(),
            best: self.best.deep_view(),
            equal_peer: self.equal_peer.deep_view(),
            advertised: self.advertised.deep_view(),
        }
    }
}

impl DeepView for NodeState {
    type V = NodeStateView;

    open spec fn deep_view(&self) -> NodeStateView {
        self@
    }
}

impl Value for NodeState {
    fn copy(&self) -> (r: Self) {
        NodeState {
            node: self.node.copy(),
            best: self.best.copy(),
            equal_peer: self.equal_peer.copy(),
            advertised: self.advertised.copy(),
        }
    }

    fn same(&self, other: &Self) -> (r: bool) {
        self.node.same(&other.node)
            && self.best.same(&other.best)
            && self.equal_peer.same(&other.equal_peer)
            && self.advertised.same(&other.advertised)
    }
}

/// How a run ended.
#[derive(Clone, Copy, Debug, PartialEq, Eq, Structural)]
pub enum RunStatus {
    /// The event queue drained and the global state is at rest.
    Stable,
    /// A global state recurred.
    Oscillation,
    /// The safety cap was reached without a proof of either.
    Inconclusive,
}

impl DeepView for RunStatus {
    type V = RunStatus;

    open spec fn deep_view(&self) -> RunStatus {
        *self
    }
}

impl Value for RunStatus {
    fn copy(&self) -> (r: Self) {
        *self
    }

    fn same(&self, other: &Self) -> (r: bool) {
        *self == *other
    }
}

/// The evidence that a global state recurred.
#[derive(Clone, Debug, PartialEq, Eq)]
pub struct CycleProof {
    /// Global-state signature that recurred.
    pub state_signature: String,
    pub first_seen_at_step: usize,
    pub recurred_at_step: usize,
    pub first_seen_tick: u64,
    pub recurred_tick: u64,
    pub involved_prefixes: Vec<Prefix>,
    pub involved_nodes: Vec<NodeId>,
    pub cycle_steps: Vec<usize>,
}

/// What a [`CycleProof`] holds.
#[verifier::ext_equal]
pub struct CycleProofView {
    pub state_signature: Chars,
    pub first_seen_at_step: usize,
    pub recurred_at_step: usize,
    pub first_seen_tick: u64,
    pub recurred_tick: u64,
    pub involved_prefixes: Seq<Chars>,
    pub involved_nodes: Seq<Chars>,
    pub cycle_steps: Seq<usize>,
}

impl View for CycleProof {
    type V = CycleProofView;

    open spec fn view(&self) -> CycleProofView {
        CycleProofView {
            state_signature: self.state_signature.deep_view(),
            first_seen_at_step: self.first_seen_at_step,
            recurred_at_step: self.recurred_at_step,
            first_seen_tick: self.first_seen_tick,
            recurred_tick: self.recurred_tick,
            involved_prefixes: self.involved_prefixes.deep_view(),
            involved_nodes: self.involved_nodes.deep_view(),
            cycle_steps: self.cycle_steps.deep_view(),
        }
    }
}

impl DeepView for CycleProof {
    type V = CycleProofView;

    open spec fn deep_view(&self) -> CycleProofView {
        self@
    }
}

impl Value for CycleProof {
    fn copy(&self) -> (r: Self) {
        CycleProof {
            state_signature: self.state_signature.copy(),
            first_seen_at_step: self.first_seen_at_step,
            recurred_at_step: self.recurred_at_step,
            first_seen_tick: self.first_seen_tick,
            recurred_tick: self.recurred_tick,
            involved_prefixes: self.involved_prefixes.copy(),
            involved_nodes: self.involved_nodes.copy(),
            cycle_steps: self.cycle_steps.copy(),
        }
    }

    fn same(&self, other: &Self) -> (r: bool) {
        self.state_signature.same(&other.state_signature)
            && self.first_seen_at_step == other.first_seen_at_step
            && self.recurred_at_step == other.recurred_at_step
            && self.first_seen_tick == other.first_seen_tick
            && self.recurred_tick == other.recurred_tick
            && self.involved_prefixes.same(&other.involved_prefixes)
            && self.involved_nodes.same(&other.involved_nodes)
            && self.cycle_steps.same(&other.cycle_steps)
    }
}

/// The result of a run.
#[derive(Debug)]
pub struct RunResult {
    pub status: RunStatus,
    pub steps: Vec<Step>,
    pub states: Vec<NodeState>,
    pub best: Vec<BestEntry>,
    pub advertised: Vec<AdvertisedRoute>,
    pub trace_fingerprint: String,
    pub final_state_signature: String,
    pub messages_processed: usize,
    pub ticks: u64,
    pub cycle: Option<CycleProof>,
    pub inconclusive_reason: Option<String>,
}

/// What a [`RunResult`] holds.
#[verifier::ext_equal]
pub struct RunResultView {
    pub status: RunStatus,
    pub steps: Seq<StepView>,
    pub states: Seq<NodeStateView>,
    pub best: Seq<BestEntryView>,
    pub advertised: Seq<AdvertisedRouteView>,
    pub trace_fingerprint: Chars,
    pub final_state_signature: Chars,
    pub messages_processed: usize,
    pub ticks: u64,
    pub cycle: Option<CycleProofView>,
    pub inconclusive_reason: Option<Chars>,
}

impl View for RunResult {
    type V = RunResultView;

    open spec fn view(&self) -> RunResultView {
        RunResultView {
            status: self.status,
            steps: self.steps.deep_view(),
            states: self.states.deep_view(),
            best: self.best.deep_view(),
            advertised: self.advertised.deep_view(),
            trace_fingerprint: self.trace_fingerprint.deep_view(),
            final_state_signature: self.final_state_signature.deep_view(),
            messages_processed: self.messages_processed,
            ticks: self.ticks,
            cycle: self.cycle.deep_view(),
            inconclusive_reason: self.inconclusive_reason.deep_view(),
        }
    }
}

impl DeepView for RunResult {
    type V = RunResultView;

    open spec fn deep_view(&self) -> RunResultView {
        self@
    }
}

impl Value for RunResult {
    fn copy(&self) -> (r: Self) {
        RunResult {
            status: self.status,
            steps: self.steps.copy(),
            states: self.states.copy(),
            best: self.best.copy(),
            advertised: self.advertised.copy(),
            trace_fingerprint: self.trace_fingerprint.copy(),
            final_state_signature: self.final_state_signature.copy(),
            messages_processed: self.messages_processed,
            ticks: self.ticks,
            cycle: self.cycle.copy(),
            inconclusive_reason: self.inconclusive_reason.copy(),
        }
    }

    fn same(&self, other: &Self) -> (r: bool) {
        self.status == other.status
            && self.steps.same(&other.steps)
            && self.states.same(&other.states)
            && self.best.same(&other.best)
            && self.advertised.same(&other.advertised)
            && self.trace_fingerprint.same(&other.trace_fingerprint)
            && self.final_state_signature.same(&other.final_state_signature)
            && self.messages_processed == other.messages_processed
            && self.ticks == other.ticks
            && self.cycle.same(&other.cycle)
            && self.inconclusive_reason.same(&other.inconclusive_reason)
    }
}

} // verus!
