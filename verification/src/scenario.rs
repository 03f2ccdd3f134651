//! Scenario snapshot branching, edit application and rule-level diffs.

use crate::model::{
    Direction, EditSet, EditSetView, EventSpec, EventSpecView,
    NodeId, NodeSpec, NodeSpecView, Policy, PolicyView, Prefix, Rule, RuleEdit, RuleEditView,
    RuleRef, RuleRefView, RuleView, ScenarioInput, ScenarioInputView,
};
use crate::ordmap::{add_keys, in_order, OrdMap};
use crate::queue::later;
use crate::rib::lookup;
use crate::text::{decimal, str_eq, strs_contain, u64_text, usize_text, Chars};
use crate::value::Value;
use vstd::prelude::*;

verus! {

/// What a difference is.
#[derive(Clone, Copy, Debug, PartialEq, Eq, Structural)]
pub enum DiffOp {
    RuleAdded,
    RuleChanged,
    RuleRemoved,
    RuleReordered,
    AnnouncementWithdrawn,
    RestartInjected,
}

impl DeepView for DiffOp {
    type V = DiffOp;

    open spec fn deep_view(&self) -> DiffOp {
        *self
    }
}

impl Value for DiffOp {
    fn copy(&self) -> (r: Self) {
        *self
    }

    fn same(&self, other: &Self) -> (r: bool) {
        *self == *other
    }
}

/// One difference between a scenario and a branch of it.
#[derive(Clone, Debug, PartialEq, Eq)]
pub struct RuleDiff {
    pub op: DiffOp,
    pub node: NodeId,
    pub direction: String,
    pub rule: String,
    pub detail: String,
    pub before: Option<Rule>,
    pub after: Option<Rule>,
}

/// What a [`RuleDiff`] holds.
#[verifier::ext_equal]
pub struct RuleDiffView {
    pub op: DiffOp,
    pub node: Chars,
    pub direction: Chars,
    pub rule: Chars,
    pub detail: Chars,
    pub before: Option<RuleView>,
    pub after: Option<RuleView>,
}

impl View for RuleDiff {
    type V = RuleDiffView;

    open spec fn view(&self) -> RuleDiffView {
        RuleDiffView {
            op: self.op,
            node: self.node.deep_view(),
            direction: self.direction.deep_view(),
            rule: self.rule.deep_view(),
            detail: self.detail.deep_view(),
            before: self.before.deep_view(),
            after: self.after.deep_view(),
        }
    }
}

impl DeepView for RuleDiff {
    type V = RuleDiffView;

    open spec fn deep_view(&self) -> RuleDiffView {
        self@
    }
}

impl Value for RuleDiff {
    fn copy(&self) -> (r: Self) {
        RuleDiff {
            op: self.op,
            node: self.node.copy(),
            direction: self.direction.copy(),
            rule: self.rule.copy(),
            detail: self.detail.copy(),
            before: self.before.copy(),
            after: self.after.copy(),
        }
    }

    fn same(&self, other: &Self) -> (r: bool) {
        self.op == other.op
            && self.node.same(&other.node)
            && self.direction.same(&other.direction)
            && self.rule.same(&other.rule)
            && self.detail.same(&other.detail)
            && self.before.same(&other.before)
            && self.after.same(&other.after)
    }
}

/// A branch with what its edits change.
#[derive(Debug)]
pub struct EditPreview {
    /// Fully materialized derived scenario (snapshot branch input).
    pub scenario: ScenarioInput,
    pub diffs: Vec<RuleDiff>,
    pub affected_nodes: Vec<NodeId>,
    pub affected_prefixes: Vec<Prefix>,
}

/// What a [`EditPreview`] holds.
#[verifier::ext_equal]
pub struct EditPreviewView {
    pub scenario: ScenarioInputView,
    pub diffs: Seq<RuleDiffView>,
    pub affected_nodes: Seq<Chars>,
    pub affected_prefixes: Seq<Chars>,
}

impl View for EditPreview {
    type V = EditPreviewView;

    open spec fn view(&self) -> EditPreviewView {
        EditPreviewView {
            scenario: self.scenario.deep_view(),
            diffs: self.diffs.deep_view(),
            affected_nodes: self.affected_nodes.deep_view(),
            affected_prefixes: self.affected_prefixes.deep_view(),
        }
    }
}

impl DeepView for EditPreview {
    type V = EditPreviewView;

    open spec fn deep_view(&self) -> EditPreviewView {
        self@
    }
}

impl Value for EditPreview {
    fn copy(&self) -> (r: Self) {
        EditPreview {
            scenario: self.scenario.copy(),
            diffs: self.diffs.copy(),
            affected_nodes: self.affected_nodes.copy(),
            affected_prefixes: self.affected_prefixes.copy(),
        }
    }

    fn same(&self, other: &Self) -> (r: bool) {
        self.scenario.same(&other.scenario)
            && self.diffs.same(&other.diffs)
            && self.affected_nodes.same(&other.affected_nodes)
            && self.affected_prefixes.same(&other.affected_prefixes)
    }
}

/// Names one rule of one policy in a difference.
#[derive(Clone, Debug, PartialEq, Eq)]
pub struct RuleRefKey {
    pub node: NodeId,
    pub direction: String,
    pub rule: String,
}

/// What a [`RuleRefKey`] holds.
#[verifier::ext_equal]
pub struct RuleRefKeyView {
    pub node: Chars,
    pub direction: Chars,
    pub rule: Chars,
}

impl View for RuleRefKey {
    type V = RuleRefKeyView;

    open spec fn view(&self) -> RuleRefKeyView {
        RuleRefKeyView {
            node: self.node.deep_view(),
            direction: self.direction.deep_view(),
            rule: self.rule.deep_view(),
        }
    }
}

impl DeepView for RuleRefKey {
    type V = RuleRefKeyView;

    open spec fn deep_view(&self) -> RuleRefKeyView {
        self@
    }
}

impl Value for RuleRefKey {
    fn copy(&self) -> (r: Self) {
        RuleRefKey {
            node: self.node.copy(),
            direction: self.direction.copy(),
            rule: self.rule.copy(),
        }
    }

    fn same(&self, other: &Self) -> (r: bool) {
        self.node.same(&other.node)
            && self.direction.same(&other.direction)
            && self.rule.same(&other.rule)
    }
}

/// What two drafts make of one rule of their common base.
#[derive(Clone, Debug, PartialEq, Eq)]
pub struct ConcurrentDiff {
    pub rule: RuleRefKey,
    pub left: Option<Rule>,
    pub right: Option<Rule>,
    pub conflict: bool,
    pub detail: String,
}

/// What a [`ConcurrentDiff`] holds.
#[verifier::ext_equal]
pub struct ConcurrentDiffView {
    pub rule: RuleRefKeyView,
    pub left: Option<RuleView>,
    pub right: Option<RuleView>,
    pub conflict: bool,
    pub detail: Chars,
}

impl View for ConcurrentDiff {
    type V = ConcurrentDiffView;

    open spec fn view(&self) -> ConcurrentDiffView {
        ConcurrentDiffView {
            rule: self.rule.deep_view(),
            left: self.left.deep_view(),
            right: self.right.deep_view(),
            conflict: self.conflict,
            detail: self.detail.deep_view(),
        }
    }
}

impl DeepView for ConcurrentDiff {
    type V = ConcurrentDiffView;

    open spec fn deep_view(&self) -> ConcurrentDiffView {
        self@
    }
}

impl Value for ConcurrentDiff {
    fn copy(&self) -> (r: Self) {
        ConcurrentDiff {
            rule: self.rule.copy(),
            left: self.left.copy(),
            right: self.right.copy(),
            conflict: self.conflict,
            detail: self.detail.copy(),
        }
    }

    fn same(&self, other: &Self) -> (r: bool) {
        self.rule.same(&other.rule)
            && self.left.same(&other.left)
            && self.right.same(&other.right)
            && self.conflict == other.conflict
            && self.detail.same(&other.detail)
    }
}

// ---------- branching ----------

/// A branch while it is edited.
#[derive(Debug)]
pub struct Draft {
    pub next: ScenarioInput,
    pub diffs: Vec<RuleDiff>,
    pub affected: Vec<NodeId>,
}

/// What a [`Draft`] holds.
#[verifier::ext_equal]
pub struct DraftView {
    pub next: ScenarioInputView,
    pub diffs: Seq<RuleDiffView>,
    pub affected: Seq<Chars>,
}

impl View for Draft {
    type V = DraftView;

    open spec fn view(&self) -> DraftView {
        DraftView {
            next: self.next.deep_view(),
            diffs: self.diffs.deep_view(),
            affected: self.affected.deep_view(),
        }
    }
}

impl DeepView for Draft {
    type V = DraftView;

    open spec fn deep_view(&self) -> DraftView {
        self@
    }
}

/// The rules of a node in a direction.
pub open spec fn rules_in(node: NodeSpecView, dir: Direction) -> Seq<RuleView> {
    match dir {
        Direction::Import => node.policy.import,
        Direction::Export => node.policy.export,
    }
}

/// The node with other rules in a direction.
pub open spec fn with_rules(
    node: NodeSpecView,
    dir: Direction,
    rules: Seq<RuleView>,
) -> NodeSpecView {
    NodeSpecView {
        policy: match dir {
            Direction::Import => PolicyView { import: rules, ..node.policy },
            Direction::Export => PolicyView { export: rules, ..node.policy },
        },
        ..node
    }
}

/// The scenario in which a node has other rules in a direction.
pub open spec fn replaced_rules(
    input: ScenarioInputView,
    node: Chars,
    dir: Direction,
    rules: Seq<RuleView>,
) -> ScenarioInputView {
    ScenarioInputView {
        nodes: input.nodes.insert(node, with_rules(input.nodes[node], dir, rules)),
        ..input
    }
}

/// The position of the first rule with an id.
pub open spec fn position(rules: Seq<RuleView>, id: Chars) -> Option<int>
    decreases rules.len(),
{
    if rules.len() == 0 {
        None
    } else {
        match position(rules.drop_last(), id) {
            Some(i) => Some(i),
            None => if rules.last().id == id {
                Some(rules.len() - 1)
            } else {
                None
            },
        }
    }
}

/// A list with a node, appended if it is not there.
pub open spec fn noted(list: Seq<Chars>, node: Chars) -> Seq<Chars> {
    if list.contains(node) {
        list
    } else {
        list.push(node)
    }
}

/// The draft with another scenario, one more difference and its node.
pub open spec fn amended(d: DraftView, next: ScenarioInputView, diff: RuleDiffView) -> DraftView {
    DraftView { next, diffs: d.diffs.push(diff), affected: noted(d.affected, diff.node) }
}

/// What to call the replacement of a rule: changed, unless only how it is described or
/// what follows a match differs.
pub open spec fn replacement_op(old_rule: RuleView, new_rule: RuleView) -> DiffOp {
    if old_rule.when == new_rule.when && old_rule.do_ == new_rule.do_ {
        DiffOp::RuleReordered
    } else {
        DiffOp::RuleChanged
    }
}

/// One rule edit. The base says where the rule stands: it is replaced there unless it
/// already reads so, and appended where the base does not have it and the edit allows it.
pub open spec fn rule_edited(
    base: ScenarioInputView,
    edit: RuleEditView,
    d: DraftView,
) -> Result<DraftView, Chars> {
    if !base.nodes.dom().contains(edit.node) {
        Err("unknown node "@ + edit.node)
    } else {
        let old_rules = rules_in(base.nodes[edit.node], edit.direction);
        let target = rules_in(d.next.nodes[edit.node], edit.direction);
        match position(old_rules, edit.rule.id) {
            Some(pos) => if target[pos] == edit.rule {
                Ok(d)
            } else {
                Ok(
                    amended(
                        d,
                        replaced_rules(
                            d.next,
                            edit.node,
                            edit.direction,
                            target.update(pos, edit.rule),
                        ),
                        RuleDiffView {
                            op: replacement_op(target[pos], edit.rule),
                            node: edit.node,
                            direction: edit.direction.name(),
                            rule: edit.rule.id,
                            detail: "rule "@ + edit.rule.id + " on "@ + edit.node + " "@
                                + edit.direction.name() + " replaced"@,
                            before: Some(old_rules[pos]),
                            after: Some(edit.rule),
                        },
                    ),
                )
            },
            None => if !edit.upsert {
                Err(
                    "rule "@ + edit.rule.id + " not found on "@ + edit.node + " "@
                        + edit.direction.name() + " and upsert=false"@,
                )
            } else {
                Ok(
                    amended(
                        d,
                        replaced_rules(
                            d.next,
                            edit.node,
                            edit.direction,
                            target.push(edit.rule),
                        ),
                        RuleDiffView {
                            op: DiffOp::RuleAdded,
                            node: edit.node,
                            direction: edit.direction.name(),
                            rule: edit.rule.id,
                            detail: "rule "@ + edit.rule.id + " appended to "@ + edit.node + " "@
                                + edit.direction.name(),
                            before: None,
                            after: Some(edit.rule),
                        },
                    ),
                )
            },
        }
    }
}

/// The rule edits, one after the other; the first error ends them.
pub open spec fn rules_edited(
    base: ScenarioInputView,
    edits: Seq<RuleEditView>,
    d: DraftView,
) -> Result<DraftView, Chars>
    decreases edits.len(),
{
    if edits.len() == 0 {
        Ok(d)
    } else {
        match rules_edited(base, edits.drop_last(), d) {
            Ok(before) => rule_edited(base, edits.last(), before),
            Err(e) => Err(e),
        }
    }
}

/// One rule removal. A rule that is not there is passed over.
pub open spec fn rule_removed(
    base: ScenarioInputView,
    gone: RuleRefView,
    d: DraftView,
) -> Result<DraftView, Chars> {
    if !base.nodes.dom().contains(gone.node) {
        Err("unknown node "@ + gone.node)
    } else {
        let old_rules = rules_in(base.nodes[gone.node], gone.direction);
        let target = rules_in(d.next.nodes[gone.node], gone.direction);
        match position(target, gone.rule) {
            None => Ok(d),
            Some(pos) => Ok(
                amended(
                    d,
                    replaced_rules(d.next, gone.node, gone.direction, target.remove(pos)),
                    RuleDiffView {
                        op: DiffOp::RuleRemoved,
                        node: gone.node,
                        direction: gone.direction.name(),
                        rule: gone.rule,
                        detail: "rule "@ + gone.rule + " removed from "@ + gone.node + " "@
                            + gone.direction.name(),
                        before: match position(old_rules, gone.rule) {
                            Some(i) => Some(old_rules[i]),
                            None => None,
                        },
                        after: None,
                    },
                ),
            ),
        }
    }
}

/// The rule removals, one after the other; the first error ends them.
pub open spec fn rules_removed(
    base: ScenarioInputView,
    gone: Seq<RuleRefView>,
    d: DraftView,
) -> Result<DraftView, Chars>
    decreases gone.len(),
{
    if gone.len() == 0 {
        Ok(d)
    } else {
        match rules_removed(base, gone.drop_last(), d) {
            Ok(before) => rule_removed(base, gone.last(), before),
            Err(e) => Err(e),
        }
    }
}

/// The last tick of a timeline; zero without events.
pub open spec fn timeline_end(events: Seq<EventSpecView>) -> u64
    decreases events.len(),
{
    if events.len() == 0 {
        0
    } else {
        let before = timeline_end(events.drop_last());
        if events.last().when() > before {
            events.last().when()
        } else {
            before
        }
    }
}

/// When an injected event happens: the asked number of ticks after the end of the base
/// timeline, or one tick after the last event of the branch.
pub open spec fn injection_tick(
    base: ScenarioInputView,
    next: ScenarioInputView,
    asked: Option<u64>,
) -> u64 {
    match asked {
        Some(t) => later(timeline_end(base.events), t),
        None => later(timeline_end(next.events), 1),
    }
}

/// Whether an event with an id is there.
pub open spec fn has_event(events: Seq<EventSpecView>, id: Chars) -> bool {
    exists|i: int| 0 <= i < events.len() && (#[trigger] events[i]).name() == id
}

/// One withdrawal. One that is already there, or of an unknown announcement, is passed over.
pub open spec fn announcement_withdrawn(
    base: ScenarioInputView,
    asked: Option<u64>,
    ann_id: Chars,
    d: DraftView,
) -> DraftView {
    let id = "withdraw-"@ + ann_id;
    if has_event(d.next.events, id) {
        d
    } else {
        match crate::engine::announcement_of(d.next.announcements, ann_id) {
            None => d,
            Some(ann) => {
                let tick = injection_tick(base, d.next, asked);
                amended(
                    d,
                    ScenarioInputView {
                        events: d.next.events.push(
                            EventSpecView::Withdraw { id, announcement: ann_id, tick },
                        ),
                        ..d.next
                    },
                    RuleDiffView {
                        op: DiffOp::AnnouncementWithdrawn,
                        node: ann.node,
                        direction: "event"@,
                        rule: ann_id,
                        detail: "announcement "@ + ann_id + " ("@ + ann.prefix
                            + ") withdrawn at tick "@ + decimal(tick as int),
                        before: None,
                        after: None,
                    },
                )
            },
        }
    }
}

/// The withdrawals, one after the other.
pub open spec fn announcements_withdrawn(
    base: ScenarioInputView,
    asked: Option<u64>,
    ids: Seq<Chars>,
    d: DraftView,
) -> DraftView
    decreases ids.len(),
{
    if ids.len() == 0 {
        d
    } else {
        announcement_withdrawn(
            base,
            asked,
            ids.last(),
            announcements_withdrawn(base, asked, ids.drop_last(), d),
        )
    }
}

/// One restart. One that is already there is passed over.
pub open spec fn restart_injected(
    base: ScenarioInputView,
    asked: Option<u64>,
    node: Chars,
    d: DraftView,
) -> Result<DraftView, Chars> {
    if !d.next.nodes.dom().contains(node) {
        Err("unknown node "@ + node + " for restart"@)
    } else {
        let id = "restart-"@ + node + "-"@ + decimal(d.next.events.len() as int);
        if has_event(d.next.events, id) {
            Ok(d)
        } else {
            let tick = injection_tick(base, d.next, asked);
            Ok(
                amended(
                    d,
                    ScenarioInputView {
                        events: d.next.events.push(EventSpecView::Restart { id, node, tick }),
                        ..d.next
                    },
                    RuleDiffView {
                        op: DiffOp::RestartInjected,
                        node,
                        direction: "event"@,
                        rule: node,
                        detail: "neighbor "@ + node + " restart injected at tick "@ + decimal(
                            tick as int,
                        ),
                        before: None,
                        after: None,
                    },
                ),
            )
        }
    }
}

/// The restarts, one after the other; the first error ends them.
pub open spec fn restarts_injected(
    base: ScenarioInputView,
    asked: Option<u64>,
    nodes: Seq<Chars>,
    d: DraftView,
) -> Result<DraftView, Chars>
    decreases nodes.len(),
{
    if nodes.len() == 0 {
        Ok(d)
    } else {
        match restarts_injected(base, asked, nodes.drop_last(), d) {
            Ok(before) => restart_injected(base, asked, nodes.last(), before),
            Err(e) => Err(e),
        }
    }
}

/// The draft before any edit: the base under another name.
pub open spec fn blank(base: ScenarioInputView, name: Chars) -> DraftView {
    DraftView {
        next: ScenarioInputView { name, ..base },
        diffs: Seq::empty(),
        affected: Seq::empty(),
    }
}

/// The draft after all edits: rules replaced and added, rules removed, announcements
/// withdrawn, restarts injected.
pub open spec fn edited(
    base: ScenarioInputView,
    edits: EditSetView,
    name: Chars,
) -> Result<DraftView, Chars> {
    match rules_edited(base, edits.rules, blank(base, name)) {
        Err(e) => Err(e),
        Ok(d1) => match rules_removed(base, edits.removed_rule_ids, d1) {
            Err(e) => Err(e),
            Ok(d2) => restarts_injected(
                base,
                edits.restart_tick,
                edits.restart,
                announcements_withdrawn(base, edits.restart_tick, edits.withdraw, d2),
            ),
        },
    }
}

/// The branch that an edit set makes of a base.
pub open spec fn branched(
    base: ScenarioInputView,
    edits: EditSetView,
    name: Chars,
) -> Result<EditPreviewView, Chars> {
    match edited(base, edits, name) {
        Err(e) => Err(e),
        Ok(d) => Ok(
            EditPreviewView {
                scenario: d.next,
                diffs: d.diffs,
                affected_nodes: d.affected,
                affected_prefixes: Seq::empty(),
            },
        ),
    }
}

/// Whether a draft has the nodes of its base, and no fewer rules.
pub open spec fn grown(base: ScenarioInputView, next: ScenarioInputView) -> bool {
    &&& next.nodes.dom() == base.nodes.dom()
    &&& forall|n: Chars, dir: Direction|
        #![trigger rules_in(next.nodes[n], dir)]
        base.nodes.dom().contains(n) ==> rules_in(next.nodes[n], dir).len() >= rules_in(
            base.nodes[n],
            dir,
        ).len()
}

proof fn lemma_position(rules: Seq<RuleView>, id: Chars)
    ensures
        position(rules, id) matches Some(i) ==> {
            &&& 0 <= i < rules.len()
            &&& rules[i].id == id
            &&& forall|k: int| 0 <= k < i ==> (#[trigger] rules[k]).id != id
        },
        position(rules, id) is None ==> forall|k: int|
            0 <= k < rules.len() ==> (#[trigger] rules[k]).id != id,
    decreases rules.len(),
{
    if rules.len() > 0 {
        let init = rules.drop_last();
        lemma_position(init, id);
        assert(rules.last() == rules[rules.len() - 1]);
        match position(init, id) {
            Some(i) => {
                assert(init[i] == rules[i]);
                assert forall|k: int| 0 <= k < i implies (#[trigger] rules[k]).id != id by {
                    assert(init[k].id != id);
                }
            },
            None => {
                assert forall|k: int| 0 <= k < rules.len() - 1 implies (#[trigger] rules[k]).id
                    != id by {
                    assert(init[k].id != id);
                }
            },
        }
    }
}

fn find_rule(rules: &Vec<Rule>, id: &String) -> (r: Option<usize>)
    ensures
        r is Some <==> position(rules.deep_view(), id@) is Some,
        r matches Some(i) ==> position(rules.deep_view(), id@) == Some(i as int) && i
            < rules@.len(),
{
    let ghost all = rules.deep_view();
    let mut i: usize = 0;
    while i < rules.len()
        invariant
            i <= rules@.len(),
            all == rules.deep_view(),
            position(all.take(i as int), id@) is None,
        decreases rules.len() - i,
    {
        proof {
            assert(all.take(i + 1).last() == rules@[i as int]@);
            assert(all.take(i + 1).drop_last() =~= all.take(i as int));
        }
        if rules[i].id.same(id) {
            proof {
                lemma_position(all, id@);
                lemma_position(all.take(i as int), id@);
                assert(all[i as int].id == id@);
                let p = position(all, id@)->0;
                if p < i {
                    assert(all.take(i as int)[p].id != id@);
                }
            }
            return Some(i);
        }
        i += 1;
    }
    assert(all.take(i as int) =~= all);
    None
}

fn rules_ref<'a>(node: &'a NodeSpec, dir: Direction) -> (r: &'a Vec<Rule>)
    ensures
        r.deep_view() == rules_in(node@, dir),
{
    match dir {
        Direction::Import => &node.policy.import,
        Direction::Export => &node.policy.export,
    }
}

fn set_rules(next: &mut ScenarioInput, node: &String, dir: Direction, rules: Vec<Rule>)
    requires
        old(next)@.nodes.dom().contains(node@),
    ensures
        final(next)@ == replaced_rules(old(next)@, node@, dir, rules.deep_view()),
{
    let ghost before = next@;
    if let Some(spec) = next.nodes.remove(node) {
        let policy = match dir {
            Direction::Import => Policy { import: rules, export: spec.policy.export },
            Direction::Export => Policy { import: spec.policy.import, export: rules },
        };
        let spec = NodeSpec { asn: spec.asn, x: spec.x, y: spec.y, policy };
        next.nodes.insert(node.clone(), spec);
        proof {
            let after = replaced_rules(before, node@, dir, rules.deep_view());
            assert(next@.nodes =~= after.nodes);
            assert(next@ =~= after);
        }
    }
}

fn note(d: &mut Draft, diff: RuleDiff)
    ensures
        final(d)@ == amended(old(d)@, old(d)@.next, diff@),
{
    let ghost before = d@;
    if !strs_contain(&d.affected, diff.node.as_str()) {
        d.affected.push(diff.node.clone());
        assert(d.affected.deep_view() =~= before.affected.push(diff.node@));
    }
    d.diffs.push(diff);
    assert(d.diffs.deep_view() =~= before.diffs.push(diff@));
}

fn edit_rule(base: &ScenarioInput, edit: &RuleEdit, d: Draft) -> (r: Result<Draft, String>)
    requires
        grown(base@, d@.next),
    ensures
        match r {
            Ok(out) => rule_edited(base@, edit@, d@) == Ok::<DraftView, Chars>(out@) && grown(
                base@,
                out@.next,
            ),
            Err(e) => rule_edited(base@, edit@, d@) == Err::<DraftView, Chars>(e@),
        },
{
    let ghost before = d@;
    let mut d = d;
    let spec = match base.nodes.get(&edit.node) {
        Some(spec) => spec,
        None => {
            return Err("unknown node ".to_owned().concat(edit.node.as_str()));
        },
    };
    let old_rules = rules_ref(spec, edit.direction);
    let found = find_rule(old_rules, &edit.rule.id);
    let mut target: Vec<Rule> = Vec::new();
    if let Some(current) = d.next.nodes.get(&edit.node) {
        target = rules_ref(current, edit.direction).copy();
    }
    let ghost rules = target.deep_view();
    assert(rules == rules_in(before.next.nodes[edit.node@], edit.direction));
    match found {
        Some(pos) => {
            assert(pos < target@.len());
            assert(rules[pos as int] == target@[pos as int]@);
            if target[pos].same(&edit.rule) {
                return Ok(d);
            }
            let op = if target[pos].when.same(&edit.rule.when) && target[pos].do_.same(
                &edit.rule.do_,
            ) {
                DiffOp::RuleReordered
            } else {
                DiffOp::RuleChanged
            };
            target.set(pos, edit.rule.copy());
            assert(target.deep_view() =~= rules.update(pos as int, edit.rule@));
            set_rules(&mut d.next, &edit.node, edit.direction, target);
            let detail = "rule ".to_owned().concat(edit.rule.id.as_str()).concat(" on ").concat(
                edit.node.as_str(),
            ).concat(" ").concat(edit.direction.as_str()).concat(" replaced");
            note(
                &mut d,
                RuleDiff {
                    op,
                    node: edit.node.clone(),
                    direction: edit.direction.as_str().to_owned(),
                    rule: edit.rule.id.clone(),
                    detail,
                    before: Some(old_rules[pos].copy()),
                    after: Some(edit.rule.copy()),
                },
            );
        },
        None => {
            if !edit.upsert {
                return Err(
                    "rule ".to_owned().concat(edit.rule.id.as_str()).concat(
                        " not found on ",
                    ).concat(edit.node.as_str()).concat(" ").concat(
                        edit.direction.as_str(),
                    ).concat(" and upsert=false"),
                );
            }
            target.push(edit.rule.copy());
            assert(target.deep_view() =~= rules.push(edit.rule@));
            set_rules(&mut d.next, &edit.node, edit.direction, target);
            let detail = "rule ".to_owned().concat(edit.rule.id.as_str()).concat(
                " appended to ",
            ).concat(edit.node.as_str()).concat(" ").concat(edit.direction.as_str());
            note(
                &mut d,
                RuleDiff {
                    op: DiffOp::RuleAdded,
                    node: edit.node.clone(),
                    direction: edit.direction.as_str().to_owned(),
                    rule: edit.rule.id.clone(),
                    detail,
                    before: None,
                    after: Some(edit.rule.copy()),
                },
            );
        },
    }
    proof {
        lemma_replaced_grown(
            base@,
            before.next,
            edit.node@,
            edit.direction,
            target.deep_view(),
        );
    }
    Ok(d)
}

/// Replacing a rule list by one that is not shorter keeps a draft grown.
proof fn lemma_replaced_grown(
    base: ScenarioInputView,
    next: ScenarioInputView,
    node: Chars,
    dir: Direction,
    rules: Seq<RuleView>,
)
    requires
        grown(base, next),
        base.nodes.dom().contains(node),
        rules.len() >= rules_in(next.nodes[node], dir).len(),
    ensures
        grown(base, replaced_rules(next, node, dir, rules)),
{
    let after = replaced_rules(next, node, dir, rules);
    assert(after.nodes.dom() =~= base.nodes.dom());
    assert forall|n: Chars, way: Direction|
        #![trigger rules_in(after.nodes[n], way)]
        base.nodes.dom().contains(n) implies rules_in(after.nodes[n], way).len() >= rules_in(
        base.nodes[n],
        way,
    ).len() by {
        assert(rules_in(next.nodes[n], way).len() >= rules_in(base.nodes[n], way).len());
        assert(rules_in(next.nodes[node], dir).len() >= rules_in(base.nodes[node], dir).len());
    }
}

fn edit_rules(base: &ScenarioInput, edits: &Vec<RuleEdit>, d: Draft) -> (r: Result<Draft, String>)
    requires
        grown(base@, d@.next),
    ensures
        match r {
            Ok(out) => rules_edited(base@, edits.deep_view(), d@) == Ok::<DraftView, Chars>(out@)
                && out@.next.nodes.dom() == base@.nodes.dom(),
            Err(e) => rules_edited(base@, edits.deep_view(), d@) == Err::<DraftView, Chars>(e@),
        },
{
    let ghost all = edits.deep_view();
    let ghost first = d@;
    let mut draft = d;
    let mut i: usize = 0;
    while i < edits.len()
        invariant
            i <= edits@.len(),
            all == edits.deep_view(),
            first == d@,
            grown(base@, draft@.next),
            rules_edited(base@, all.take(i as int), first) == Ok::<DraftView, Chars>(draft@),
        decreases edits.len() - i,
    {
        proof {
            assert(all.take(i + 1).last() == edits@[i as int]@);
            assert(all.take(i + 1).drop_last() =~= all.take(i as int));
        }
        draft = match edit_rule(base, &edits[i], draft) {
            Ok(out) => out,
            Err(e) => {
                proof {
                    lemma_edit_error(base@, all, i + 1, first);
                }
                return Err(e);
            },
        };
        i += 1;
    }
    assert(all.take(i as int) =~= all);
    Ok(draft)
}

proof fn lemma_edit_error(
    base: ScenarioInputView,
    edits: Seq<RuleEditView>,
    n: int,
    d: DraftView,
)
    requires
        0 <= n <= edits.len(),
        rules_edited(base, edits.take(n), d) is Err,
    ensures
        rules_edited(base, edits, d) == rules_edited(base, edits.take(n), d),
    decreases edits.len(),
{
    if n == edits.len() {
        assert(edits.take(n) =~= edits);
    } else {
        assert(edits.drop_last().take(n) =~= edits.take(n));
        lemma_edit_error(base, edits.drop_last(), n, d);
    }
}

fn remove_rule(base: &ScenarioInput, gone: &RuleRef, d: Draft) -> (r: Result<Draft, String>)
    requires
        d@.next.nodes.dom() == base@.nodes.dom(),
    ensures
        match r {
            Ok(out) => rule_removed(base@, gone@, d@) == Ok::<DraftView, Chars>(out@)
                && out@.next.nodes.dom() == base@.nodes.dom(),
            Err(e) => rule_removed(base@, gone@, d@) == Err::<DraftView, Chars>(e@),
        },
{
    let ghost before = d@;
    let mut d = d;
    let spec = match base.nodes.get(&gone.node) {
        Some(spec) => spec,
        None => {
            return Err("unknown node ".to_owned().concat(gone.node.as_str()));
        },
    };
    let old_rules = rules_ref(spec, gone.direction);
    let old_rule: Option<Rule> = match find_rule(old_rules, &gone.rule) {
        Some(i) => {
            assert(old_rules.deep_view()[i as int] == old_rules@[i as int]@);
            Some(old_rules[i].copy())
        },
        None => None,
    };
    let mut target: Vec<Rule> = Vec::new();
    if let Some(current) = d.next.nodes.get(&gone.node) {
        target = rules_ref(current, gone.direction).copy();
    }
    let ghost rules = target.deep_view();
    assert(rules == rules_in(before.next.nodes[gone.node@], gone.direction));
    if let Some(pos) = find_rule(&target, &gone.rule) {
        target.remove(pos);
        assert(target.deep_view() =~= rules.remove(pos as int));
        set_rules(&mut d.next, &gone.node, gone.direction, target);
        assert(d@.next.nodes.dom() =~= base@.nodes.dom());
        let detail = "rule ".to_owned().concat(gone.rule.as_str()).concat(
            " removed from ",
        ).concat(gone.node.as_str()).concat(" ").concat(gone.direction.as_str());
        note(
            &mut d,
            RuleDiff {
                op: DiffOp::RuleRemoved,
                node: gone.node.clone(),
                direction: gone.direction.as_str().to_owned(),
                rule: gone.rule.clone(),
                detail,
                before: old_rule,
                after: None,
            },
        );
    }
    Ok(d)
}

fn remove_rules(base: &ScenarioInput, gone: &Vec<RuleRef>, d: Draft) -> (r: Result<Draft, String>)
    requires
        d@.next.nodes.dom() == base@.nodes.dom(),
    ensures
        match r {
            Ok(out) => rules_removed(base@, gone.deep_view(), d@) == Ok::<DraftView, Chars>(out@),
            Err(e) => rules_removed(base@, gone.deep_view(), d@) == Err::<DraftView, Chars>(e@),
        },
{
    let ghost all = gone.deep_view();
    let ghost first = d@;
    let mut draft = d;
    let mut i: usize = 0;
    while i < gone.len()
        invariant
            i <= gone@.len(),
            all == gone.deep_view(),
            first == d@,
            draft@.next.nodes.dom() == base@.nodes.dom(),
            rules_removed(base@, all.take(i as int), first) == Ok::<DraftView, Chars>(draft@),
        decreases gone.len() - i,
    {
        proof {
            assert(all.take(i + 1).last() == gone@[i as int]@);
            assert(all.take(i + 1).drop_last() =~= all.take(i as int));
        }
        draft = match remove_rule(base, &gone[i], draft) {
            Ok(out) => out,
            Err(e) => {
                proof {
                    lemma_remove_error(base@, all, i + 1, first);
                }
                return Err(e);
            },
        };
        i += 1;
    }
    assert(all.take(i as int) =~= all);
    Ok(draft)
}

proof fn lemma_remove_error(
    base: ScenarioInputView,
    gone: Seq<RuleRefView>,
    n: int,
    d: DraftView,
)
    requires
        0 <= n <= gone.len(),
        rules_removed(base, gone.take(n), d) is Err,
    ensures
        rules_removed(base, gone, d) == rules_removed(base, gone.take(n), d),
    decreases gone.len(),
{
    if n == gone.len() {
        assert(gone.take(n) =~= gone);
    } else {
        assert(gone.drop_last().take(n) =~= gone.take(n));
        lemma_remove_error(base, gone.drop_last(), n, d);
    }
}

fn last_tick(events: &Vec<EventSpec>) -> (r: u64)
    ensures
        r == timeline_end(events.deep_view()),
{
    let ghost all = events.deep_view();
    let mut end: u64 = 0;
    let mut i: usize = 0;
    while i < events.len()
        invariant
            i <= events@.len(),
            all == events.deep_view(),
            end == timeline_end(all.take(i as int)),
        decreases events.len() - i,
    {
        proof {
            assert(all.take(i + 1).last() == events@[i as int]@);
            assert(all.take(i + 1).drop_last() =~= all.take(i as int));
        }
        let tick = events[i].tick();
        if tick > end {
            end = tick;
        }
        i += 1;
    }
    assert(all.take(i as int) =~= all);
    end
}

fn tick_of_injection(base: &ScenarioInput, next: &ScenarioInput, asked: Option<u64>) -> (r: u64)
    ensures
        r == injection_tick(base@, next@, asked),
{
    match asked {
        Some(t) => last_tick(&base.events).saturating_add(t),
        None => last_tick(&next.events).saturating_add(1),
    }
}

fn event_is_there(events: &Vec<EventSpec>, id: &String) -> (r: bool)
    ensures
        r == has_event(events.deep_view(), id@),
{
    let ghost all = events.deep_view();
    let mut i: usize = 0;
    while i < events.len()
        invariant
            i <= events@.len(),
            all == events.deep_view(),
            forall|k: int| 0 <= k < i ==> (#[trigger] all[k]).name() != id@,
        decreases events.len() - i,
    {
        assert(all[i as int] == events@[i as int]@);
        if str_eq(events[i].id(), id.as_str()) {
            return true;
        }
        i += 1;
    }
    false
}

fn push_event(next: &mut ScenarioInput, event: EventSpec)
    ensures
        final(next)@ == (ScenarioInputView {
            events: old(next)@.events.push(event@),
            ..old(next)@
        }),
{
    let ghost before = next@;
    next.events.push(event);
    assert(next@.events =~= before.events.push(event@));
}

fn withdraw_announcement(base: &ScenarioInput, asked: Option<u64>, ann_id: &String, d: &mut Draft)
    ensures
        final(d)@ == announcement_withdrawn(base@, asked, ann_id@, old(d)@),
{
    let id = "withdraw-".to_owned().concat(ann_id.as_str());
    if event_is_there(&d.next.events, &id) {
        return ;
    }
    let (node, prefix) = match crate::engine::find_announcement(&d.next.announcements, ann_id) {
        Some(ann) => (ann.node.clone(), ann.prefix.clone()),
        None => {
            return ;
        },
    };
    let tick = tick_of_injection(base, &d.next, asked);
    push_event(
        &mut d.next,
        EventSpec::Withdraw { id, announcement: ann_id.clone(), tick },
    );
    let detail = "announcement ".to_owned().concat(ann_id.as_str()).concat(" (").concat(
        prefix.as_str(),
    ).concat(") withdrawn at tick ").concat(u64_text(tick).as_str());
    note(
        d,
        RuleDiff {
            op: DiffOp::AnnouncementWithdrawn,
            node,
            direction: "event".to_owned(),
            rule: ann_id.clone(),
            detail,
            before: None,
            after: None,
        },
    );
}

fn withdraw_announcements(
    base: &ScenarioInput,
    asked: Option<u64>,
    ids: &Vec<String>,
    d: &mut Draft,
)
    ensures
        final(d)@ == announcements_withdrawn(base@, asked, ids.deep_view(), old(d)@),
{
    let ghost all = ids.deep_view();
    let ghost first = d@;
    let mut i: usize = 0;
    while i < ids.len()
        invariant
            i <= ids@.len(),
            all == ids.deep_view(),
            d@ == announcements_withdrawn(base@, asked, all.take(i as int), first),
        decreases ids.len() - i,
    {
        proof {
            assert(all.take(i + 1).last() == ids@[i as int]@);
            assert(all.take(i + 1).drop_last() =~= all.take(i as int));
        }
        withdraw_announcement(base, asked, &ids[i], d);
        i += 1;
    }
    assert(all.take(i as int) =~= all);
}

fn inject_restart(base: &ScenarioInput, asked: Option<u64>, node: &String, d: Draft) -> (r: Result<
    Draft,
    String,
>)
    ensures
        match r {
            Ok(out) => restart_injected(base@, asked, node@, d@) == Ok::<DraftView, Chars>(out@),
            Err(e) => restart_injected(base@, asked, node@, d@) == Err::<DraftView, Chars>(e@),
        },
{
    let mut d = d;
    if !d.next.nodes.contains_key(node) {
        return Err("unknown node ".to_owned().concat(node.as_str()).concat(" for restart"));
    }
    let id = "restart-".to_owned().concat(node.as_str()).concat("-").concat(
        usize_text(d.next.events.len()).as_str(),
    );
    if event_is_there(&d.next.events, &id) {
        return Ok(d);
    }
    let tick = tick_of_injection(base, &d.next, asked);
    push_event(&mut d.next, EventSpec::Restart { id, node: node.clone(), tick });
    let detail = "neighbor ".to_owned().concat(node.as_str()).concat(
        " restart injected at tick ",
    ).concat(u64_text(tick).as_str());
    note(
        &mut d,
        RuleDiff {
            op: DiffOp::RestartInjected,
            node: node.clone(),
            direction: "event".to_owned(),
            rule: node.clone(),
            detail,
            before: None,
            after: None,
        },
    );
    Ok(d)
}

fn inject_restarts(base: &ScenarioInput, asked: Option<u64>, nodes: &Vec<NodeId>, d: Draft) -> (r:
    Result<Draft, String>)
    ensures
        match r {
            Ok(out) => restarts_injected(base@, asked, nodes.deep_view(), d@) == Ok::<
                DraftView,
                Chars,
            >(out@),
            Err(e) => restarts_injected(base@, asked, nodes.deep_view(), d@) == Err::<
                DraftView,
                Chars,
            >(e@),
        },
{
    let ghost all = nodes.deep_view();
    let ghost first = d@;
    let mut draft = d;
    let mut i: usize = 0;
    while i < nodes.len()
        invariant
            i <= nodes@.len(),
            all == nodes.deep_view(),
            first == d@,
            restarts_injected(base@, asked, all.take(i as int), first) == Ok::<DraftView, Chars>(
                draft@,
            ),
        decreases nodes.len() - i,
    {
        proof {
            assert(all.take(i + 1).last() == nodes@[i as int]@);
            assert(all.take(i + 1).drop_last() =~= all.take(i as int));
        }
        draft = match inject_restart(base, asked, &nodes[i], draft) {
            Ok(out) => out,
            Err(e) => {
                proof {
                    lemma_restart_error(base@, asked, all, i + 1, first);
                }
                return Err(e);
            },
        };
        i += 1;
    }
    assert(all.take(i as int) =~= all);
    Ok(draft)
}

proof fn lemma_restart_error(
    base: ScenarioInputView,
    asked: Option<u64>,
    nodes: Seq<Chars>,
    n: int,
    d: DraftView,
)
    requires
        0 <= n <= nodes.len(),
        restarts_injected(base, asked, nodes.take(n), d) is Err,
    ensures
        restarts_injected(base, asked, nodes, d) == restarts_injected(
            base,
            asked,
            nodes.take(n),
            d,
        ),
    decreases nodes.len(),
{
    if n == nodes.len() {
        assert(nodes.take(n) =~= nodes);
    } else {
        assert(nodes.drop_last().take(n) =~= nodes.take(n));
        lemma_restart_error(base, asked, nodes.drop_last(), n, d);
    }
}

/// Applies an edit set to a snapshot and gives a new scenario; the base is never
/// overwritten.
pub fn branch(base: &ScenarioInput, edits: &EditSet, branch_name: String) -> (r: Result<
    EditPreview,
    String,
>)
    ensures
        match r {
            Ok(p) => branched(base@, edits@, branch_name@) == Ok::<EditPreviewView, Chars>(p@),
            Err(e) => branched(base@, edits@, branch_name@) == Err::<EditPreviewView, Chars>(e@),
        },
{
    let mut next = base.copy();
    next.name = branch_name;
    let d = Draft { next, diffs: Vec::new(), affected: Vec::new() };
    assert(d@ =~= blank(base@, branch_name@));
    let d1 = match edit_rules(base, &edits.rules, d) {
        Ok(d1) => d1,
        Err(e) => {
            return Err(e);
        },
    };
    let mut d2 = match remove_rules(base, &edits.removed_rule_ids, d1) {
        Ok(d2) => d2,
        Err(e) => {
            return Err(e);
        },
    };
    withdraw_announcements(base, edits.restart_tick, &edits.withdraw, &mut d2);
    match inject_restarts(base, edits.restart_tick, &edits.restart, d2) {
        Ok(d3) => {
            let none: Vec<Prefix> = Vec::new();
            assert(none.deep_view() =~= Seq::empty());
            Ok(
                EditPreview {
                    scenario: d3.next,
                    diffs: d3.diffs,
                    affected_nodes: d3.affected,
                    affected_prefixes: none,
                },
            )
        },
        Err(e) => Err(e),
    }
}

// ---------- concurrent drafts ----------

/// Names a rule: its node, its direction and its id.
pub type RuleKey = ((String, String), String);

/// What a [`RuleKey`] holds.
pub type RuleKeyView = ((Chars, Chars), Chars);

/// The last rule of a list with an id.
pub open spec fn last_rule(rules: Seq<RuleView>, id: Chars) -> Option<RuleView>
    decreases rules.len(),
{
    if rules.len() == 0 {
        None
    } else if rules.last().id == id {
        Some(rules.last())
    } else {
        last_rule(rules.drop_last(), id)
    }
}

/// The rule that a key names in a scenario.
pub open spec fn rule_of(input: ScenarioInputView, key: RuleKeyView) -> Option<RuleView> {
    if !input.nodes.dom().contains(key.0.0) {
        None
    } else if key.0.1 == "import"@ {
        last_rule(input.nodes[key.0.0].policy.import, key.1)
    } else if key.0.1 == "export"@ {
        last_rule(input.nodes[key.0.0].policy.export, key.1)
    } else {
        None
    }
}

/// The keys that name a rule in the base or in one of the drafts.
pub open spec fn rule_keys(
    base: ScenarioInputView,
    left: ScenarioInputView,
    right: ScenarioInputView,
) -> Set<RuleKeyView> {
    Set::new(
        |k: RuleKeyView|
            rule_of(base, k) is Some || rule_of(left, k) is Some || rule_of(right, k) is Some,
    )
}

/// Whether a draft made something else of a rule than the base has.
pub open spec fn differs(
    base: ScenarioInputView,
    draft: ScenarioInputView,
    key: RuleKeyView,
) -> bool {
    rule_of(draft, key) != rule_of(base, key)
}

/// What two drafts make of a rule.
pub open spec fn concurrent(
    base: ScenarioInputView,
    left: ScenarioInputView,
    right: ScenarioInputView,
    key: RuleKeyView,
) -> ConcurrentDiffView {
    let l = differs(base, left, key);
    let r = differs(base, right, key);
    let conflict = l && r && rule_of(left, key) != rule_of(right, key);
    ConcurrentDiffView {
        rule: RuleRefKeyView { node: key.0.0, direction: key.0.1, rule: key.1 },
        left: rule_of(left, key),
        right: rule_of(right, key),
        conflict,
        detail: if conflict {
            "both drafts changed this rule differently"@
        } else if l && r {
            "both drafts changed this rule identically"@
        } else if l {
            "only left draft changed this rule"@
        } else {
            "only right draft changed this rule"@
        },
    }
}

/// The differences of two drafts against their base, for every rule that at least one of
/// them changed, in the order of nodes, directions and ids.
pub open spec fn concurrent_diffs(
    base: ScenarioInputView,
    left: ScenarioInputView,
    right: ScenarioInputView,
) -> Seq<ConcurrentDiffView> {
    in_order::<RuleKey>(rule_keys(base, left, right)).filter(
        |k: RuleKeyView| differs(base, left, k) || differs(base, right, k),
    ).map_values(|k: RuleKeyView| concurrent(base, left, right, k))
}

/// What an index of rules has to hold after some nodes.
spec fn indexed(
    m: Map<RuleKeyView, RuleView>,
    names: Seq<Chars>,
    input: ScenarioInputView,
) -> bool {
    forall|k: RuleKeyView| #[trigger]
        lookup(m, k) == if names.contains(k.0.0) {
            rule_of(input, k)
        } else {
            None
        }
}

/// Enters the rules of one list into an index.
fn index_rules(out: &mut OrdMap<RuleKey, Rule>, node: &String, direction: &str, rules: &Vec<Rule>)
    ensures
        forall|k: RuleKeyView| #[trigger]
            lookup(final(out)@, k) == (if k.0 == (node@, direction@) && last_rule(
                rules.deep_view(),
                k.1,
            ) is Some {
                last_rule(rules.deep_view(), k.1)
            } else {
                lookup(old(out)@, k)
            }),
{
    let ghost before = out@;
    let ghost all = rules.deep_view();
    let mut i: usize = 0;
    while i < rules.len()
        invariant
            i <= rules@.len(),
            all == rules.deep_view(),
            forall|k: RuleKeyView| #[trigger]
                lookup(out@, k) == (if k.0 == (node@, direction@) && last_rule(
                    all.take(i as int),
                    k.1,
                ) is Some {
                    last_rule(all.take(i as int), k.1)
                } else {
                    lookup(before, k)
                }),
        decreases rules.len() - i,
    {
        let ghost partial = out@;
        let key = ((node.clone(), direction.to_owned()), rules[i].id.clone());
        proof {
            assert(key.deep_view() == ((node@, direction@), rules@[i as int].id@));
            assert(all.take(i + 1).last() == rules@[i as int]@);
            assert(all.take(i + 1).drop_last() =~= all.take(i as int));
        }
        out.insert(key, rules[i].copy());
        proof {
            assert forall|k: RuleKeyView| #[trigger] lookup(out@, k) == (if k.0 == (
                node@,
                direction@,
            ) && last_rule(all.take(i + 1), k.1) is Some {
                last_rule(all.take(i + 1), k.1)
            } else {
                lookup(before, k)
            }) by {
                if k != key.deep_view() {
                    assert(lookup(out@, k) == lookup(partial, k));
                }
            }
        }
        i += 1;
    }
    assert(all.take(i as int) =~= all);
}

fn rule_index(input: &ScenarioInput) -> (r: OrdMap<RuleKey, Rule>)
    ensures
        forall|k: RuleKeyView| #[trigger] lookup(r@, k) == rule_of(input@, k),
{
    let ghost names = in_order::<String>(input@.nodes.dom());
    let mut out: OrdMap<RuleKey, Rule> = OrdMap::new();
    let n = input.nodes.len();
    let mut i: usize = 0;
    while i < n
        invariant
            i <= n,
            n == names.len(),
            names == in_order::<String>(input.nodes@.dom()),
            names == in_order::<String>(input@.nodes.dom()),
            crate::ordmap::ascending::<String>(names),
            names.to_set() == input@.nodes.dom(),
            indexed(out@, names.take(i as int), input@),
        decreases n - i,
    {
        let ghost before = out@;
        let node = input.nodes.key_at(i);
        let spec = input.nodes.value_at(i);
        index_rules(&mut out, node, "import", &spec.policy.import);
        index_rules(&mut out, node, "export", &spec.policy.export);
        proof {
            reveal_strlit("import");
            reveal_strlit("export");
            assert("import"@[0] != "export"@[0]);
            let longer = names.take(i + 1);
            assert(longer =~= names.take(i as int).push(names[i as int]));
            assert(!names.take(i as int).contains(names[i as int])) by {
                if names.take(i as int).contains(names[i as int]) {
                    let j = choose|j: int|
                        0 <= j < i && names.take(i as int)[j] == names[i as int];
                    assert(<String as crate::ordmap::Key>::lt(names[j], names[i as int]));
                    crate::text::lemma_str_lt_irreflexive(names[i as int]);
                }
            }
            assert forall|k: RuleKeyView| #[trigger] lookup(out@, k) == (if names.take(
                i + 1,
            ).contains(k.0.0) {
                rule_of(input@, k)
            } else {
                None
            }) by {
                assert(lookup(before, k) == (if names.take(i as int).contains(k.0.0) {
                    rule_of(input@, k)
                } else {
                    None
                }));
                if k.0.0 == names[i as int] {
                    assert(names.take(i + 1)[i as int] == k.0.0);
                } else if names.take(i as int).contains(k.0.0) {
                    let j = choose|j: int| 0 <= j < i && names.take(i as int)[j] == k.0.0;
                    assert(names.take(i + 1)[j] == k.0.0);
                } else if longer.contains(k.0.0) {
                    let j = choose|j: int| 0 <= j < longer.len() && longer[j] == k.0.0;
                    assert(names.take(i as int)[j] == k.0.0);
                }
            }
        }
        i += 1;
    }
    proof {
        assert(names.take(i as int) =~= names);
        assert forall|k: RuleKeyView| #[trigger] lookup(out@, k) == rule_of(input@, k) by {
            if input@.nodes.dom().contains(k.0.0) {
                assert(names.to_set().contains(k.0.0));
            } else if names.contains(k.0.0) {
                assert(names.to_set().contains(k.0.0));
            }
        }
    }
    out
}

fn rule_at(index: &OrdMap<RuleKey, Rule>, key: &RuleKey) -> (r: Option<Rule>)
    ensures
        r.deep_view() == lookup(index@, key.deep_view()),
{
    match index.get(key) {
        Some(rule) => Some(rule.copy()),
        None => None,
    }
}

/// Computes rule-level differences between two concurrent drafts against a common base.
/// Each rule reports the sides that changed it, so that conflicts are visible per rule.
pub fn concurrent_diff(
    base: &ScenarioInput,
    left: &ScenarioInput,
    right: &ScenarioInput,
) -> (r: Vec<ConcurrentDiff>)
    ensures
        r.deep_view() == concurrent_diffs(base@, left@, right@),
{
    let b = rule_index(base);
    let l = rule_index(left);
    let rt = rule_index(right);
    let mut keys: OrdMap<RuleKey, ()> = OrdMap::new();
    add_keys(&mut keys, &b);
    add_keys(&mut keys, &l);
    add_keys(&mut keys, &rt);
    let ghost all = in_order::<RuleKey>(keys@.dom());
    let ghost wanted = |k: RuleKeyView| differs(base@, left@, k) || differs(base@, right@, k);
    let ghost make = |k: RuleKeyView| concurrent(base@, left@, right@, k);
    proof {
        assert forall|k: RuleKeyView| keys@.dom().contains(k) == rule_keys(
            base@,
            left@,
            right@,
        ).contains(k) by {
            assert(lookup(b@, k) == rule_of(base@, k));
            assert(lookup(l@, k) == rule_of(left@, k));
            assert(lookup(rt@, k) == rule_of(right@, k));
        }
        assert(keys@.dom() =~= rule_keys(base@, left@, right@));
    }
    let mut out: Vec<ConcurrentDiff> = Vec::new();
    let n = keys.len();
    let mut i: usize = 0;
    assert(out.deep_view() =~= all.take(0).filter(wanted).map_values(make)) by {
        reveal(Seq::filter);
    }
    while i < n
        invariant
            i <= n,
            n == all.len(),
            all == in_order::<RuleKey>(keys@.dom()),
            wanted == (|k: RuleKeyView| differs(base@, left@, k) || differs(base@, right@, k)),
            make == (|k: RuleKeyView| concurrent(base@, left@, right@, k)),
            forall|k: RuleKeyView| #[trigger] lookup(b@, k) == rule_of(base@, k),
            forall|k: RuleKeyView| #[trigger] lookup(l@, k) == rule_of(left@, k),
            forall|k: RuleKeyView| #[trigger] lookup(rt@, k) == rule_of(right@, k),
            out.deep_view() == all.take(i as int).filter(wanted).map_values(make),
        decreases n - i,
    {
        let key = keys.key_at(i);
        let ghost k = key.deep_view();
        let ghost partial = out.deep_view();
        proof {
            assert(k == ((key.0.0@, key.0.1@), key.1@));
            assert(all.take(i + 1) =~= all.take(i as int).push(k));
            all.take(i as int).lemma_filter_push(k, wanted);
        }
        let before = rule_at(&b, key);
        let lv = rule_at(&l, key);
        let rv = rule_at(&rt, key);
        let l_changed = !lv.same(&before);
        let r_changed = !rv.same(&before);
        if l_changed || r_changed {
            let conflict = l_changed && r_changed && !lv.same(&rv);
            let detail = if conflict {
                "both drafts changed this rule differently"
            } else if l_changed && r_changed {
                "both drafts changed this rule identically"
            } else if l_changed {
                "only left draft changed this rule"
            } else {
                "only right draft changed this rule"
            };
            let diff = ConcurrentDiff {
                rule: RuleRefKey {
                    node: key.0.0.clone(),
                    direction: key.0.1.clone(),
                    rule: key.1.clone(),
                },
                left: lv,
                right: rv,
                conflict,
                detail: detail.to_owned(),
            };
            assert(diff@ =~= make(k));
            out.push(diff);
            proof {
                assert(out.deep_view() =~= partial.push(make(k)));
                assert(all.take(i + 1).filter(wanted).map_values(make) =~= partial.push(make(k)));
            }
        }
        i += 1;
    }
    assert(all.take(i as int) =~= all);
    out
}

// ---------- laws ----------

/// Whether a draft differs from its base only where its differences say so: nothing but the
/// rules of affected nodes has changed, and events have only been added.
pub open spec fn faithful(base: ScenarioInputView, name: Chars, d: DraftView) -> bool {
    &&& d.next.name == name
    &&& d.next.description == base.description
    &&& d.next.sessions == base.sessions
    &&& d.next.announcements == base.announcements
    &&& d.next.max_iterations == base.max_iterations
    &&& d.next.nodes.dom() == base.nodes.dom()
    &&& forall|n: Chars| #[trigger]
        base.nodes.dom().contains(n) ==> {
            &&& d.next.nodes[n].asn == base.nodes[n].asn
            &&& d.next.nodes[n].x == base.nodes[n].x
            &&& d.next.nodes[n].y == base.nodes[n].y
            &&& !d.affected.contains(n) ==> d.next.nodes[n] == base.nodes[n]
        }
    &&& base.events.len() <= d.next.events.len()
    &&& d.next.events.take(base.events.len() as int) == base.events
    &&& d.diffs.len() == 0 ==> d.next == ScenarioInputView { name, ..base }
}

/// A node is noted if it was, or if it is the new one.
pub proof fn lemma_noted(list: Seq<Chars>, node: Chars, n: Chars)
    ensures
        noted(list, node).contains(n) <==> list.contains(n) || n == node,
{
    let all = noted(list, node);
    if list.contains(n) {
        let i = choose|i: int| 0 <= i < list.len() && list[i] == n;
        assert(all[i] == n);
    }
    if n == node && !list.contains(node) {
        assert(all[list.len() as int] == n);
    }
    if all.contains(n) && !list.contains(n) {
        let i = choose|i: int| 0 <= i < all.len() && all[i] == n;
        if i < list.len() {
            assert(list[i] == n);
        }
    }
}

proof fn lemma_rules_faithful(
    base: ScenarioInputView,
    name: Chars,
    d: DraftView,
    node: Chars,
    dir: Direction,
    rules: Seq<RuleView>,
    diff: RuleDiffView,
)
    requires
        faithful(base, name, d),
        base.nodes.dom().contains(node),
        diff.node == node,
    ensures
        faithful(base, name, amended(d, replaced_rules(d.next, node, dir, rules), diff)),
{
    let after = amended(d, replaced_rules(d.next, node, dir, rules), diff);
    assert(after.next.nodes.dom() =~= base.nodes.dom());
    assert forall|n: Chars| #[trigger] base.nodes.dom().contains(n) implies {
        &&& after.next.nodes[n].asn == base.nodes[n].asn
        &&& after.next.nodes[n].x == base.nodes[n].x
        &&& after.next.nodes[n].y == base.nodes[n].y
        &&& !after.affected.contains(n) ==> after.next.nodes[n] == base.nodes[n]
    } by {
        lemma_noted(d.affected, node, n);
    }
}

proof fn lemma_event_faithful(
    base: ScenarioInputView,
    name: Chars,
    d: DraftView,
    event: EventSpecView,
    diff: RuleDiffView,
)
    requires
        faithful(base, name, d),
    ensures
        faithful(
            base,
            name,
            amended(
                d,
                ScenarioInputView { events: d.next.events.push(event), ..d.next },
                diff,
            ),
        ),
{
    let after = amended(
        d,
        ScenarioInputView { events: d.next.events.push(event), ..d.next },
        diff,
    );
    assert(after.next.events.take(base.events.len() as int) =~= d.next.events.take(
        base.events.len() as int,
    ));
    assert forall|n: Chars| #[trigger] base.nodes.dom().contains(n) implies {
        &&& after.next.nodes[n].asn == base.nodes[n].asn
        &&& after.next.nodes[n].x == base.nodes[n].x
        &&& after.next.nodes[n].y == base.nodes[n].y
        &&& !after.affected.contains(n) ==> after.next.nodes[n] == base.nodes[n]
    } by {
        lemma_noted(d.affected, diff.node, n);
    }
}

proof fn lemma_rules_edited_faithful(
    base: ScenarioInputView,
    name: Chars,
    edits: Seq<RuleEditView>,
    d: DraftView,
)
    requires
        faithful(base, name, d),
    ensures
        rules_edited(base, edits, d) matches Ok(out) ==> faithful(base, name, out),
    decreases edits.len(),
{
    if edits.len() > 0 {
        lemma_rules_edited_faithful(base, name, edits.drop_last(), d);
        if let Ok(before) = rules_edited(base, edits.drop_last(), d) {
            let edit = edits.last();
            if let Ok(out) = rule_edited(base, edit, before) {
                if out != before {
                    let target = rules_in(before.next.nodes[edit.node], edit.direction);
                    let old_rules = rules_in(base.nodes[edit.node], edit.direction);
                    let rules = match position(old_rules, edit.rule.id) {
                        Some(pos) => target.update(pos, edit.rule),
                        None => target.push(edit.rule),
                    };
                    lemma_rules_faithful(
                        base,
                        name,
                        before,
                        edit.node,
                        edit.direction,
                        rules,
                        out.diffs.last(),
                    );
                    assert(out.diffs =~= before.diffs.push(out.diffs.last()));
                }
            }
        }
    }
}

proof fn lemma_rules_removed_faithful(
    base: ScenarioInputView,
    name: Chars,
    gone: Seq<RuleRefView>,
    d: DraftView,
)
    requires
        faithful(base, name, d),
    ensures
        rules_removed(base, gone, d) matches Ok(out) ==> faithful(base, name, out),
    decreases gone.len(),
{
    if gone.len() > 0 {
        lemma_rules_removed_faithful(base, name, gone.drop_last(), d);
        if let Ok(before) = rules_removed(base, gone.drop_last(), d) {
            let r = gone.last();
            if let Ok(out) = rule_removed(base, r, before) {
                if out != before {
                    let target = rules_in(before.next.nodes[r.node], r.direction);
                    let pos = position(target, r.rule)->0;
                    lemma_rules_faithful(
                        base,
                        name,
                        before,
                        r.node,
                        r.direction,
                        target.remove(pos),
                        out.diffs.last(),
                    );
                    assert(out.diffs =~= before.diffs.push(out.diffs.last()));
                }
            }
        }
    }
}

proof fn lemma_withdrawn_faithful(
    base: ScenarioInputView,
    name: Chars,
    asked: Option<u64>,
    ids: Seq<Chars>,
    d: DraftView,
)
    requires
        faithful(base, name, d),
    ensures
        faithful(base, name, announcements_withdrawn(base, asked, ids, d)),
    decreases ids.len(),
{
    if ids.len() > 0 {
        let before = announcements_withdrawn(base, asked, ids.drop_last(), d);
        lemma_withdrawn_faithful(base, name, asked, ids.drop_last(), d);
        let out = announcement_withdrawn(base, asked, ids.last(), before);
        if out != before {
            lemma_event_faithful(
                base,
                name,
                before,
                out.next.events.last(),
                out.diffs.last(),
            );
            assert(out.next.events =~= before.next.events.push(out.next.events.last()));
            assert(out.diffs =~= before.diffs.push(out.diffs.last()));
        }
    }
}

proof fn lemma_restarts_faithful(
    base: ScenarioInputView,
    name: Chars,
    asked: Option<u64>,
    nodes: Seq<Chars>,
    d: DraftView,
)
    requires
        faithful(base, name, d),
    ensures
        restarts_injected(base, asked, nodes, d) matches Ok(out) ==> faithful(base, name, out),
    decreases nodes.len(),
{
    if nodes.len() > 0 {
        lemma_restarts_faithful(base, name, asked, nodes.drop_last(), d);
        if let Ok(before) = restarts_injected(base, asked, nodes.drop_last(), d) {
            if let Ok(out) = restart_injected(base, asked, nodes.last(), before) {
                if out != before {
                    lemma_event_faithful(
                        base,
                        name,
                        before,
                        out.next.events.last(),
                        out.diffs.last(),
                    );
                    assert(out.next.events =~= before.next.events.push(out.next.events.last()));
                    assert(out.diffs =~= before.diffs.push(out.diffs.last()));
                }
            }
        }
    }
}

/// A branch keeps everything of its base that no edit touches: the topology, the
/// announcements and the safety cap, the policies of all nodes that are not affected, and
/// all events of the base, which stay in front. A branch without differences is the base
/// under another name.
pub proof fn law_branch_keeps_base(base: ScenarioInputView, edits: EditSetView, name: Chars)
    ensures
        edited(base, edits, name) matches Ok(d) ==> faithful(base, name, d),
        branched(base, edits, name) matches Ok(p) ==> faithful(
            base,
            name,
            DraftView { next: p.scenario, diffs: p.diffs, affected: p.affected_nodes },
        ),
{
    let d0 = blank(base, name);
    assert(base.events.take(base.events.len() as int) =~= base.events);
    lemma_rules_edited_faithful(base, name, edits.rules, d0);
    if let Ok(d1) = rules_edited(base, edits.rules, d0) {
        lemma_rules_removed_faithful(base, name, edits.removed_rule_ids, d1);
        if let Ok(d2) = rules_removed(base, edits.removed_rule_ids, d1) {
            let d3 = announcements_withdrawn(base, edits.restart_tick, edits.withdraw, d2);
            lemma_withdrawn_faithful(base, name, edits.restart_tick, edits.withdraw, d2);
            lemma_restarts_faithful(base, name, edits.restart_tick, edits.restart, d3);
        }
    }
}

/// Without edits a branch always comes about, and it is the base under another name.
pub proof fn law_no_edits_no_differences(base: ScenarioInputView, name: Chars)
    ensures
        branched(base, EditSetView::empty(), name) matches Ok(p) && p.scenario == (
        ScenarioInputView { name, ..base }) && p.diffs.len() == 0 && p.affected_nodes.len() == 0,
{
}

/// A single rule edit is refused exactly where its node is unknown, or where its rule is
/// and may not be added. Otherwise the rule stands in the branch as the edit has it.
pub proof fn law_rule_edit_takes_effect(
    base: ScenarioInputView,
    edit: RuleEditView,
    name: Chars,
)
    ensures
        ({
            let edits = EditSetView { rules: seq![edit], ..EditSetView::empty() };
            let known = base.nodes.dom().contains(edit.node);
            let found = position(rules_in(base.nodes[edit.node], edit.direction), edit.rule.id)
                is Some;
            &&& branched(base, edits, name) is Ok <==> known && (found || edit.upsert)
            &&& branched(base, edits, name) matches Ok(p) ==> rules_in(
                p.scenario.nodes[edit.node],
                edit.direction,
            ).contains(edit.rule)
        }),
{
    let edits = EditSetView { rules: seq![edit], ..EditSetView::empty() };
    let d0 = blank(base, name);
    assert(edits.rules.drop_last() =~= Seq::empty());
    reveal_with_fuel(rules_edited, 2);
    let old_rules = rules_in(base.nodes[edit.node], edit.direction);
    lemma_position(old_rules, edit.rule.id);
    if let Ok(d) = rule_edited(base, edit, d0) {
        let rules = rules_in(d.next.nodes[edit.node], edit.direction);
        match position(old_rules, edit.rule.id) {
            Some(pos) => {
                assert(rules[pos] == edit.rule);
            },
            None => {
                assert(rules[old_rules.len() as int] == edit.rule);
            },
        }
    }
}

/// A single restart is refused exactly where its node is unknown. Otherwise it stands as
/// the last event of the branch, or it was there before.
pub proof fn law_restart_takes_effect(
    base: ScenarioInputView,
    node: Chars,
    asked: Option<u64>,
    name: Chars,
)
    ensures
        ({
            let edits = EditSetView {
                restart: seq![node],
                restart_tick: asked,
                ..EditSetView::empty()
            };
            let id = "restart-"@ + node + "-"@ + decimal(base.events.len() as int);
            &&& branched(base, edits, name) is Ok <==> base.nodes.dom().contains(node)
            &&& branched(base, edits, name) matches Ok(p) ==> p.scenario.events == if has_event(
                base.events,
                id,
            ) {
                base.events
            } else {
                base.events.push(
                    EventSpecView::Restart { id, node, tick: injection_tick(base, base, asked) },
                )
            }
        }),
{
    let edits = EditSetView {
        restart: seq![node],
        restart_tick: asked,
        ..EditSetView::empty()
    };
    assert(edits.restart.drop_last() =~= Seq::empty());
    reveal_with_fuel(restarts_injected, 2);
}

/// The keys of the rules of some nodes.
spec fn keys_at(nodes: Set<Chars>, input: ScenarioInputView) -> Set<RuleKeyView> {
    Set::new(|k: RuleKeyView| nodes.contains(k.0.0) && rule_of(input, k) is Some)
}

proof fn lemma_last_rule(rules: Seq<RuleView>, id: Chars)
    requires
        last_rule(rules, id) is Some,
    ensures
        exists|i: int| 0 <= i < rules.len() && (#[trigger] rules[i]).id == id,
    decreases rules.len(),
{
    if rules.last().id == id {
        assert(rules[rules.len() - 1].id == id);
    } else {
        let init = rules.drop_last();
        lemma_last_rule(init, id);
        let i = choose|i: int| 0 <= i < init.len() && (#[trigger] init[i]).id == id;
        assert(rules[i].id == id);
    }
}

proof fn lemma_keys_finite(nodes: Set<Chars>, input: ScenarioInputView)
    requires
        nodes.finite(),
    ensures
        keys_at(nodes, input).finite(),
    decreases nodes.len(),
{
    if nodes.len() == 0 {
        assert(keys_at(nodes, input) =~= Set::empty());
    } else {
        let n = nodes.choose();
        let rest = nodes.remove(n);
        lemma_keys_finite(rest, input);
        let policy = input.nodes[n].policy;
        let imports = policy.import.map_values(|r: RuleView| ((n, "import"@), r.id));
        let exports = policy.export.map_values(|r: RuleView| ((n, "export"@), r.id));
        vstd::seq_lib::seq_to_set_is_finite(imports);
        vstd::seq_lib::seq_to_set_is_finite(exports);
        let all = keys_at(rest, input).union(imports.to_set()).union(exports.to_set());
        assert forall|k: RuleKeyView| keys_at(nodes, input).contains(k) implies all.contains(
            k,
        ) by {
            if k.0.0 == n {
                if k.0.1 == "import"@ {
                    lemma_last_rule(policy.import, k.1);
                    let i = choose|i: int|
                        0 <= i < policy.import.len() && (#[trigger] policy.import[i]).id == k.1;
                    assert(imports[i] == k);
                } else {
                    lemma_last_rule(policy.export, k.1);
                    let i = choose|i: int|
                        0 <= i < policy.export.len() && (#[trigger] policy.export[i]).id == k.1;
                    assert(exports[i] == k);
                }
            }
        }
        vstd::set_lib::lemma_set_subset_finite(all, keys_at(nodes, input));
    }
}

/// Every rule that one of two drafts changed is reported, and no other. It is a conflict
/// exactly when both changed it, and not to the same.
pub proof fn law_concurrent_diff_is_complete(
    base: ScenarioInputView,
    left: ScenarioInputView,
    right: ScenarioInputView,
    key: RuleKeyView,
)
    requires
        base.nodes.dom().finite(),
        left.nodes.dom().finite(),
        right.nodes.dom().finite(),
    ensures
        concurrent_diffs(base, left, right).contains(concurrent(base, left, right, key)) <==> (
        rule_of(left, key) != rule_of(base, key) || rule_of(right, key) != rule_of(base, key)),
        concurrent(base, left, right, key).conflict <==> {
            &&& rule_of(left, key) != rule_of(base, key)
            &&& rule_of(right, key) != rule_of(base, key)
            &&& rule_of(left, key) != rule_of(right, key)
        },
{
    let dom = rule_keys(base, left, right);
    let keys = in_order::<RuleKey>(dom);
    lemma_keys_finite(base.nodes.dom(), base);
    lemma_keys_finite(left.nodes.dom(), left);
    lemma_keys_finite(right.nodes.dom(), right);
    assert(dom =~= keys_at(base.nodes.dom(), base).union(
        keys_at(left.nodes.dom(), left),
    ).union(keys_at(right.nodes.dom(), right)));
    crate::ordmap::lemma_in_order_exists::<RuleKey>(dom);
    let wanted = |k: RuleKeyView| differs(base, left, k) || differs(base, right, k);
    let f = keys.filter(wanted);
    let all = concurrent_diffs(base, left, right);
    if wanted(key) {
        assert(dom.contains(key));
        assert(keys.to_set().contains(key));
        let i = choose|i: int| 0 <= i < keys.len() && keys[i] == key;
        keys.lemma_filter_contains(wanted, i);
        let j = choose|j: int| 0 <= j < f.len() && f[j] == key;
        assert(all[j] == concurrent(base, left, right, key));
    }
    if all.contains(concurrent(base, left, right, key)) {
        let j = choose|j: int| 0 <= j < all.len() && all[j] == concurrent(base, left, right, key);
        keys.lemma_filter_pred(wanted, j);
        assert(all[j] == concurrent(base, left, right, f[j]));
        assert(f[j] == key) by {
            assert(all[j].rule == (RuleRefKeyView {
                node: key.0.0,
                direction: key.0.1,
                rule: key.1,
            }));
        }
    }
}

/// Drafts that make the same of every rule are never in conflict.
pub proof fn law_equal_drafts_do_not_conflict(
    base: ScenarioInputView,
    draft: ScenarioInputView,
    i: int,
)
    requires
        0 <= i < concurrent_diffs(base, draft, draft).len(),
    ensures
        !concurrent_diffs(base, draft, draft)[i].conflict,
{
}

// ---------- edits, one by one ----------

/// The import or the export rules of a node.
pub open spec fn list_in(
    nodes: Map<Chars, NodeSpecView>,
    node: Chars,
    dir: Direction,
) -> Seq<RuleView> {
    if dir == Direction::Import {
        nodes[node].policy.import
    } else {
        nodes[node].policy.export
    }
}

/// Whether the first rule with an id stands at a position.
pub open spec fn first_at(rules: Seq<RuleView>, id: Chars, i: int) -> bool {
    &&& 0 <= i < rules.len()
    &&& rules[i].id == id
    &&& forall|k: int| 0 <= k < i ==> (#[trigger] rules[k]).id != id
}

/// Whether no rule has an id.
pub open spec fn lacks(rules: Seq<RuleView>, id: Chars) -> bool {
    forall|k: int| 0 <= k < rules.len() ==> (#[trigger] rules[k]).id != id
}

/// Whether two scenarios differ in nothing but the rules of one node in one direction.
pub open spec fn same_but_rules(
    a: ScenarioInputView,
    b: ScenarioInputView,
    node: Chars,
    dir: Direction,
) -> bool {
    let (theirs, ours) = (a.nodes[node].policy, b.nodes[node].policy);
    &&& b == ScenarioInputView { nodes: b.nodes, ..a }
    &&& b.nodes.dom() == a.nodes.dom()
    &&& forall|n: Chars| n != node ==> #[trigger] b.nodes[n] == a.nodes[n]
    &&& b.nodes[node] == NodeSpecView { policy: ours, ..a.nodes[node] }
    &&& dir == Direction::Import ==> ours.export == theirs.export
    &&& dir == Direction::Export ==> ours.import == theirs.import
}

/// Whether two scenarios differ in nothing but their events.
pub open spec fn same_but_events(a: ScenarioInputView, b: ScenarioInputView) -> bool {
    b == ScenarioInputView { events: b.events, ..a }
}

/// Whether a branch reports one difference more than another, and the node of it.
pub open spec fn reports_more(p: EditPreviewView, q: EditPreviewView, node: Chars) -> bool {
    &&& q.diffs.len() == p.diffs.len() + 1
    &&& q.diffs.drop_last() == p.diffs
    &&& q.diffs.last().node == node
    &&& forall|n: Chars| #[trigger]
        q.affected_nodes.contains(n) <==> p.affected_nodes.contains(n) || n == node
}

/// Whether two branches report the same.
pub open spec fn reports_same(p: EditPreviewView, q: EditPreviewView) -> bool {
    q.diffs == p.diffs && q.affected_nodes == p.affected_nodes
}

/// Whether a difference names a rule and says what became of it.
pub open spec fn tells(
    d: RuleDiffView,
    dir: Direction,
    rule: Chars,
    op: DiffOp,
    before: Option<RuleView>,
    after: Option<RuleView>,
) -> bool {
    &&& d.direction == (if dir == Direction::Import { "import"@ } else { "export"@ })
    &&& d.rule == rule
    &&& d.op == op
    &&& d.before == before
    &&& d.after == after
}

proof fn lemma_first_at(rules: Seq<RuleView>, id: Chars)
    ensures
        forall|i: int| #[trigger] first_at(rules, id, i) ==> position(rules, id) == Some(i),
        position(rules, id) matches Some(i) ==> first_at(rules, id, i),
        position(rules, id) is None <==> lacks(rules, id),
{
    lemma_position(rules, id);
    assert forall|i: int| #[trigger] first_at(rules, id, i) implies position(rules, id)
        == Some(i) by {
        assert(rules[i].id == id);
        let p = position(rules, id)->0;
        if p < i {
            assert(rules[p].id != id);
        }
        if i < p {
            assert(rules[i].id != id);
        }
    }
    if position(rules, id) is Some {
        let p = position(rules, id)->0;
        assert(rules[p].id == id);
    }
}

proof fn lemma_edited_grown(base: ScenarioInputView, edits: Seq<RuleEditView>, d: DraftView)
    requires
        grown(base, d.next),
    ensures
        rules_edited(base, edits, d) matches Ok(out) ==> grown(base, out.next),
    decreases edits.len(),
{
    if edits.len() > 0 {
        lemma_edited_grown(base, edits.drop_last(), d);
        if let Ok(before) = rules_edited(base, edits.drop_last(), d) {
            let edit = edits.last();
            let target = rules_in(before.next.nodes[edit.node], edit.direction);
            let old_rules = rules_in(base.nodes[edit.node], edit.direction);
            lemma_position(old_rules, edit.rule.id);
            if base.nodes.dom().contains(edit.node) {
                assert(target.len() >= old_rules.len());
                let rules = match position(old_rules, edit.rule.id) {
                    Some(pos) => target.update(pos, edit.rule),
                    None => target.push(edit.rule),
                };
                lemma_replaced_grown(base, before.next, edit.node, edit.direction, rules);
            }
        }
    }
}

proof fn lemma_replaced(
    a: ScenarioInputView,
    node: Chars,
    dir: Direction,
    rules: Seq<RuleView>,
)
    requires
        a.nodes.dom().contains(node),
    ensures
        same_but_rules(a, replaced_rules(a, node, dir, rules), node, dir),
        list_in(replaced_rules(a, node, dir, rules).nodes, node, dir) == rules,
{
    let b = replaced_rules(a, node, dir, rules);
    assert(b.nodes.dom() =~= a.nodes.dom());
}

proof fn lemma_unchanged(a: ScenarioInputView, node: Chars, dir: Direction)
    ensures
        same_but_rules(a, a, node, dir),
{
}

proof fn lemma_amended(d: DraftView, next: ScenarioInputView, diff: RuleDiffView)
    ensures
        ({
            let p = EditPreviewView {
                scenario: d.next,
                diffs: d.diffs,
                affected_nodes: d.affected,
                affected_prefixes: Seq::empty(),
            };
            let out = amended(d, next, diff);
            let q = EditPreviewView {
                scenario: out.next,
                diffs: out.diffs,
                affected_nodes: out.affected,
                affected_prefixes: Seq::empty(),
            };
            reports_more(p, q, diff.node)
        }),
{
    let out = amended(d, next, diff);
    assert(out.diffs.drop_last() =~= d.diffs);
    assert forall|n: Chars| #[trigger] out.affected.contains(n) <==> d.affected.contains(n) || n
        == diff.node by {
        lemma_noted(d.affected, diff.node, n);
    }
}

/// Rule edits take effect one after the other. A further one is refused exactly where its node
/// is unknown, or where the base has no rule of its id and the edit may not add one. A rule
/// that the base has is replaced at its place, and any other one is appended; nothing else
/// changes. A replacement that changes something, and every addition, is reported once.
pub proof fn law_rule_edits_apply_one_by_one(
    base: ScenarioInputView,
    edits: Seq<RuleEditView>,
    edit: RuleEditView,
    name: Chars,
)
    ensures
        ({
            let a = branched(base, EditSetView { rules: edits, ..EditSetView::empty() }, name);
            let b = branched(
                base,
                EditSetView { rules: edits.push(edit), ..EditSetView::empty() },
                name,
            );
            let (node, dir, id) = (edit.node, edit.direction, edit.rule.id);
            let had = list_in(base.nodes, node, dir);
            &&& a is Err ==> b == a
            &&& a matches Ok(p) ==> {
                let old_rules = list_in(p.scenario.nodes, node, dir);
                &&& b is Ok <==> base.nodes.dom().contains(node) && (!lacks(had, id)
                    || edit.upsert)
                &&& b matches Ok(q) ==> {
                    let new_rules = list_in(q.scenario.nodes, node, dir);
                    &&& same_but_rules(p.scenario, q.scenario, node, dir)
                    &&& forall|i: int| #[trigger]
                        first_at(had, id, i) ==> {
                            &&& i < old_rules.len()
                            &&& new_rules == old_rules.update(i, edit.rule)
                            &&& old_rules[i] == edit.rule ==> reports_same(p, q)
                            &&& old_rules[i] != edit.rule ==> reports_more(p, q, node) && tells(
                                q.diffs.last(),
                                dir,
                                id,
                                if old_rules[i].when == edit.rule.when && old_rules[i].do_
                                    == edit.rule.do_ {
                                    DiffOp::RuleReordered
                                } else {
                                    DiffOp::RuleChanged
                                },
                                Some(had[i]),
                                Some(edit.rule),
                            )
                        }
                    &&& lacks(had, id) ==> {
                        &&& new_rules == old_rules.push(edit.rule)
                        &&& reports_more(p, q, node)
                        &&& tells(
                            q.diffs.last(),
                            dir,
                            id,
                            DiffOp::RuleAdded,
                            None,
                            Some(edit.rule),
                        )
                    }
                }
            }
        }),
{
    let d0 = blank(base, name);
    let more = edits.push(edit);
    assert(more.drop_last() =~= edits);
    let (node, dir, id) = (edit.node, edit.direction, edit.rule.id);
    let had = list_in(base.nodes, node, dir);
    lemma_first_at(had, id);
    lemma_edited_grown(base, edits, d0);
    if let Ok(d) = rules_edited(base, edits, d0) {
        let target = list_in(d.next.nodes, node, dir);
        if base.nodes.dom().contains(node) {
            assert(rules_in(d.next.nodes[node], dir).len() >= rules_in(base.nodes[node], dir).len());
            lemma_unchanged(d.next, node, dir);
            match position(had, id) {
                Some(pos) => {
                    lemma_replaced(d.next, node, dir, target.update(pos, edit.rule));
                    if target[pos] == edit.rule {
                        assert(target.update(pos, edit.rule) =~= target);
                    } else if let Ok(out) = rule_edited(base, edit, d) {
                        lemma_amended(d, out.next, out.diffs.last());
                    }
                },
                None => {
                    lemma_replaced(d.next, node, dir, target.push(edit.rule));
                    if let Ok(out) = rule_edited(base, edit, d) {
                        lemma_amended(d, out.next, out.diffs.last());
                    }
                },
            }
        }
    }
}

/// A removal takes the first rule with its id out of what the edits left, and nothing else;
/// so of a list in which the id stands once, exactly the other rules stay, in their order. A
/// rule that is not there is passed over, and an unknown node is refused. The removal is
/// reported, with what the base had.
pub proof fn law_removals_apply_one_by_one(
    base: ScenarioInputView,
    edits: Seq<RuleEditView>,
    removed: Seq<RuleRefView>,
    gone: RuleRefView,
    name: Chars,
)
    ensures
        ({
            let a = branched(
                base,
                EditSetView { rules: edits, removed_rule_ids: removed, ..EditSetView::empty() },
                name,
            );
            let b = branched(
                base,
                EditSetView {
                    rules: edits,
                    removed_rule_ids: removed.push(gone),
                    ..EditSetView::empty()
                },
                name,
            );
            let (node, dir, id) = (gone.node, gone.direction, gone.rule);
            let had = list_in(base.nodes, node, dir);
            &&& a is Err ==> b == a
            &&& a matches Ok(p) ==> {
                let old_rules = list_in(p.scenario.nodes, node, dir);
                &&& b is Ok <==> base.nodes.dom().contains(node)
                &&& b matches Ok(q) ==> {
                    let new_rules = list_in(q.scenario.nodes, node, dir);
                    &&& same_but_rules(p.scenario, q.scenario, node, dir)
                    &&& lacks(old_rules, id) ==> new_rules == old_rules && reports_same(p, q)
                    &&& forall|i: int| #[trigger]
                        first_at(old_rules, id, i) ==> {
                            &&& new_rules == old_rules.take(i) + old_rules.skip(i + 1)
                            &&& lacks(old_rules.skip(i + 1), id) ==> lacks(new_rules, id)
                                && new_rules == old_rules.filter(|r: RuleView| r.id != id)
                            &&& reports_more(p, q, node)
                            &&& q.diffs.last().before is None <==> lacks(had, id)
                            &&& forall|j: int| #[trigger]
                                first_at(had, id, j) ==> q.diffs.last().before == Some(had[j])
                            &&& tells(
                                q.diffs.last(),
                                dir,
                                id,
                                DiffOp::RuleRemoved,
                                q.diffs.last().before,
                                None,
                            )
                        }
                }
            }
        }),
{
    let d0 = blank(base, name);
    let more = removed.push(gone);
    assert(more.drop_last() =~= removed);
    let (node, dir, id) = (gone.node, gone.direction, gone.rule);
    let had = list_in(base.nodes, node, dir);
    lemma_first_at(had, id);
    assert(base.events.take(base.events.len() as int) =~= base.events);
    lemma_rules_edited_faithful(base, name, edits, d0);
    if let Ok(d1) = rules_edited(base, edits, d0) {
        lemma_rules_removed_faithful(base, name, removed, d1);
        if let Ok(d) = rules_removed(base, removed, d1) {
            let target = list_in(d.next.nodes, node, dir);
            lemma_first_at(target, id);
            if base.nodes.dom().contains(node) {
                lemma_unchanged(d.next, node, dir);
                if let Some(pos) = position(target, id) {
                    let rest = target.remove(pos);
                    lemma_replaced(d.next, node, dir, rest);
                    assert(rest =~= target.take(pos) + target.skip(pos + 1));
                    if let Ok(out) = rule_removed(base, gone, d) {
                        lemma_amended(d, out.next, out.diffs.last());
                    }
                    if lacks(target.skip(pos + 1), id) {
                        lemma_removed_once(target, id, pos);
                    }
                }
            }
        }
    }
}

proof fn lemma_removed_once(rules: Seq<RuleView>, id: Chars, pos: int)
    requires
        first_at(rules, id, pos),
        lacks(rules.skip(pos + 1), id),
    ensures
        lacks(rules.take(pos) + rules.skip(pos + 1), id),
        rules.take(pos) + rules.skip(pos + 1) == rules.filter(|r: RuleView| r.id != id),
{
    let front = rules.take(pos);
    let back = rules.skip(pos + 1);
    let rest = front + back;
    assert forall|k: int| 0 <= k < rest.len() implies (#[trigger] rest[k]).id != id by {
        if k < pos {
            assert(rest[k] == rules[k]);
        } else {
            assert(rest[k] == back[k - pos]);
        }
    }
    let p = |r: RuleView| r.id != id;
    assert forall|k: int| 0 <= k < front.len() implies (#[trigger] front[k]).id != id by {
        assert(front[k] == rules[k]);
    }
    lemma_all_stay(front, p);
    lemma_all_stay(back, p);
    assert(rules =~= front.push(rules[pos]) + back);
    front.lemma_filter_push(rules[pos], p);
    Seq::filter_distributes_over_add(front.push(rules[pos]), back, p);
}

proof fn lemma_all_stay(rules: Seq<RuleView>, p: spec_fn(RuleView) -> bool)
    requires
        forall|k: int| 0 <= k < rules.len() ==> p(#[trigger] rules[k]),
    ensures
        rules.filter(p) == rules,
    decreases rules.len(),
{
    if rules.len() == 0 {
        reveal(Seq::filter);
        assert(rules.filter(p) =~= rules);
    } else {
        let init = rules.drop_last();
        assert forall|k: int| 0 <= k < init.len() implies p(#[trigger] init[k]) by {
            assert(init[k] == rules[k]);
        }
        lemma_all_stay(init, p);
        assert(rules =~= init.push(rules.last()));
        assert(p(rules[rules.len() - 1]));
        init.lemma_filter_push(rules.last(), p);
    }
}

/// When an event happens.
pub open spec fn tick_of(event: EventSpecView) -> u64 {
    match event {
        EventSpecView::Withdraw { tick, .. } => tick,
        EventSpecView::Restart { tick, .. } => tick,
    }
}

/// The id of an event.
pub open spec fn id_of(event: EventSpecView) -> Chars {
    match event {
        EventSpecView::Withdraw { id, .. } => id,
        EventSpecView::Restart { id, .. } => id,
    }
}

/// Whether a tick is the last one at which one of some events happens, or zero without any.
pub open spec fn ends_at(events: Seq<EventSpecView>, end: u64) -> bool {
    &&& forall|i: int| 0 <= i < events.len() ==> tick_of(#[trigger] events[i]) <= end
    &&& end == 0 || exists|i: int| 0 <= i < events.len() && tick_of(#[trigger] events[i]) == end
}

/// Whether an injected event comes when it was asked for: that many ticks after the end of the
/// base or, where nothing was asked for, one tick after the end of the branch so far.
pub open spec fn comes_when_asked(
    base: Seq<EventSpecView>,
    branch: Seq<EventSpecView>,
    asked: Option<u64>,
    tick: u64,
) -> bool {
    &&& asked matches Some(t) ==> forall|end: u64| #[trigger]
        ends_at(base, end) ==> tick == (if end + t > u64::MAX {
            u64::MAX as int
        } else {
            end + t
        })
    &&& asked is None ==> forall|end: u64| #[trigger]
        ends_at(branch, end) ==> tick == (if end == u64::MAX {
            u64::MAX as int
        } else {
            end + 1
        })
}

proof fn lemma_timeline_end(events: Seq<EventSpecView>)
    ensures
        ends_at(events, timeline_end(events)),
        forall|end: u64| #[trigger] ends_at(events, end) ==> end == timeline_end(events),
    decreases events.len(),
{
    let t = timeline_end(events);
    if events.len() > 0 {
        let init = events.drop_last();
        let before = timeline_end(init);
        lemma_timeline_end(init);
        assert(events[events.len() - 1] == events.last());
        assert forall|i: int| 0 <= i < events.len() implies tick_of(#[trigger] events[i]) <= t by {
            if i < init.len() {
                assert(tick_of(init[i]) <= before);
            }
        }
        if t != 0 {
            if events.last().when() > before {
                assert(tick_of(events[events.len() - 1]) == t);
            } else {
                let i = choose|i: int|
                    0 <= i < init.len() && tick_of(#[trigger] init[i]) == before;
                assert(tick_of(events[i]) == t);
            }
        }
    }
    assert forall|end: u64| #[trigger] ends_at(events, end) implies end == t by {
        if end != 0 {
            let i = choose|i: int| 0 <= i < events.len() && tick_of(#[trigger] events[i]) == end;
            assert(tick_of(events[i]) <= t);
        }
        if t != 0 {
            let i = choose|i: int| 0 <= i < events.len() && tick_of(#[trigger] events[i]) == t;
            assert(tick_of(events[i]) <= end);
        }
    }
}

proof fn lemma_comes_when_asked(
    base: ScenarioInputView,
    next: ScenarioInputView,
    asked: Option<u64>,
)
    ensures
        comes_when_asked(base.events, next.events, asked, injection_tick(base, next, asked)),
{
    lemma_timeline_end(base.events);
    lemma_timeline_end(next.events);
}

/// A withdrawal becomes an event of the branch, behind all others: it names the announcement
/// and comes when it was asked for. An announcement that is unknown, or whose withdrawal
/// stands in the branch, is passed over. The withdrawal is reported with the node of the
/// announcement.
pub proof fn law_withdrawals_apply_one_by_one(
    base: ScenarioInputView,
    edits: Seq<RuleEditView>,
    removed: Seq<RuleRefView>,
    withdrawn: Seq<Chars>,
    ann: Chars,
    asked: Option<u64>,
    name: Chars,
)
    ensures
        ({
            let set = EditSetView {
                rules: edits,
                removed_rule_ids: removed,
                withdraw: withdrawn,
                restart: Seq::empty(),
                restart_tick: asked,
            };
            let a = branched(base, set, name);
            let b = branched(base, EditSetView { withdraw: withdrawn.push(ann), ..set }, name);
            let id = "withdraw-"@ + ann;
            &&& a is Err ==> b == a
            &&& a matches Ok(p) ==> {
                let events = p.scenario.events;
                let there = exists|i: int| 0 <= i < events.len() && id_of(#[trigger] events[i])
                    == id;
                let known = exists|i: int|
                    0 <= i < base.announcements.len() && (#[trigger] base.announcements[i]).id
                        == ann;
                &&& b matches Ok(q)
                &&& same_but_events(p.scenario, q.scenario)
                &&& there || !known ==> q.scenario.events == events && reports_same(p, q)
                &&& !there && known ==> {
                    &&& q.scenario.events.len() == events.len() + 1
                    &&& q.scenario.events.drop_last() == events
                    &&& q.scenario.events.last() matches EventSpecView::Withdraw {
                        id: its_id,
                        announcement,
                        tick,
                    }
                    &&& its_id == id
                    &&& announcement == ann
                    &&& comes_when_asked(base.events, events, asked, tick)
                    &&& q.diffs.last().op == DiffOp::AnnouncementWithdrawn
                    &&& q.diffs.last().rule == ann
                    &&& reports_more(p, q, q.diffs.last().node)
                    &&& exists|i: int|
                        0 <= i < base.announcements.len() && (
                        #[trigger] base.announcements[i]).id == ann && base.announcements[i].node
                            == q.diffs.last().node
                }
            }
        }),
{
    let d0 = blank(base, name);
    let more = withdrawn.push(ann);
    assert(more.drop_last() =~= withdrawn);
    assert(base.events.take(base.events.len() as int) =~= base.events);
    lemma_rules_edited_faithful(base, name, edits, d0);
    if let Ok(d1) = rules_edited(base, edits, d0) {
        lemma_rules_removed_faithful(base, name, removed, d1);
        if let Ok(d2) = rules_removed(base, removed, d1) {
            lemma_withdrawn_faithful(base, name, asked, withdrawn, d2);
            let d = announcements_withdrawn(base, asked, withdrawn, d2);
            let out = announcement_withdrawn(base, asked, ann, d);
            let id = "withdraw-"@ + ann;
            let events = d.next.events;
            assert(has_event(events, id) <==> exists|i: int|
                0 <= i < events.len() && id_of(#[trigger] events[i]) == id) by {
                if has_event(events, id) {
                    let i = choose|i: int|
                        0 <= i < events.len() && (#[trigger] events[i]).name() == id;
                    assert(id_of(events[i]) == id);
                }
                if exists|i: int| 0 <= i < events.len() && id_of(#[trigger] events[i]) == id {
                    let i = choose|i: int|
                        0 <= i < events.len() && id_of(#[trigger] events[i]) == id;
                    assert(events[i].name() == id);
                }
            }
            let found = crate::engine::announcement_of(base.announcements, ann);
            lemma_announcement_found(base.announcements, ann);
            if found is Some {
                crate::engine::lemma_announcement_of(base.announcements, ann);
                let i = choose|i: int|
                    0 <= i < base.announcements.len() && base.announcements[i] == found->0;
                assert(base.announcements[i].id == ann);
                if !has_event(events, id) {
                    lemma_amended(d, out.next, out.diffs.last());
                    lemma_comes_when_asked(base, d.next, asked);
                    assert(out.next.events.drop_last() =~= events);
                }
            }
        }
    }
}

proof fn lemma_announcement_found(
    announcements: Seq<crate::model::AnnouncementView>,
    id: Chars,
)
    ensures
        crate::engine::announcement_of(announcements, id) is Some <==> exists|i: int|
            0 <= i < announcements.len() && (#[trigger] announcements[i]).id == id,
    decreases announcements.len(),
{
    if announcements.len() > 0 {
        let rest = announcements.drop_first();
        lemma_announcement_found(rest, id);
        if announcements[0].id != id {
            if exists|i: int| 0 <= i < rest.len() && (#[trigger] rest[i]).id == id {
                let i = choose|i: int| 0 <= i < rest.len() && (#[trigger] rest[i]).id == id;
                assert(announcements[i + 1].id == id);
            }
            if exists|i: int| 0 <= i < announcements.len() && (#[trigger] announcements[i]).id
                == id {
                let i = choose|i: int|
                    0 <= i < announcements.len() && (#[trigger] announcements[i]).id == id;
                assert(rest[i - 1].id == id);
            }
        }
    }
}

/// A restart becomes an event of the branch, behind all others: it names the node and comes
/// when it was asked for. An unknown node is refused, and a restart whose id stands in the
/// branch is passed over. The restart is reported with its node.
pub proof fn law_restarts_apply_one_by_one(
    base: ScenarioInputView,
    set: EditSetView,
    node: Chars,
    name: Chars,
)
    ensures
        ({
            let a = branched(base, set, name);
            let b = branched(base, EditSetView { restart: set.restart.push(node), ..set }, name);
            &&& a is Err ==> b == a
            &&& a matches Ok(p) ==> {
                let events = p.scenario.events;
                let id = "restart-"@ + node + "-"@ + decimal(events.len() as int);
                let there = exists|i: int| 0 <= i < events.len() && id_of(#[trigger] events[i])
                    == id;
                &&& b is Ok <==> base.nodes.dom().contains(node)
                &&& b matches Ok(q) ==> {
                    &&& same_but_events(p.scenario, q.scenario)
                    &&& there ==> q.scenario.events == events && reports_same(p, q)
                    &&& !there ==> {
                        &&& q.scenario.events.len() == events.len() + 1
                        &&& q.scenario.events.drop_last() == events
                        &&& q.scenario.events.last() matches EventSpecView::Restart {
                            id: its_id,
                            node: its_node,
                            tick,
                        }
                        &&& its_id == id
                        &&& its_node == node
                        &&& comes_when_asked(base.events, events, set.restart_tick, tick)
                        &&& q.diffs.last().op == DiffOp::RestartInjected
                        &&& q.diffs.last().rule == node
                        &&& reports_more(p, q, node)
                    }
                }
            }
        }),
{
    let more = set.restart.push(node);
    assert(more.drop_last() =~= set.restart);
    law_branch_keeps_base(base, set, name);
    if let Ok(d) = edited(base, set, name) {
        let events = d.next.events;
        let id = "restart-"@ + node + "-"@ + decimal(events.len() as int);
        assert(has_event(events, id) <==> exists|i: int|
            0 <= i < events.len() && id_of(#[trigger] events[i]) == id) by {
            if has_event(events, id) {
                let i = choose|i: int| 0 <= i < events.len() && (#[trigger] events[i]).name() == id;
                assert(id_of(events[i]) == id);
            }
            if exists|i: int| 0 <= i < events.len() && id_of(#[trigger] events[i]) == id {
                let i = choose|i: int| 0 <= i < events.len() && id_of(#[trigger] events[i]) == id;
                assert(events[i].name() == id);
            }
        }
        if base.nodes.dom().contains(node) && !has_event(events, id) {
            if let Ok(out) = restart_injected(base, set.restart_tick, node, d) {
                lemma_amended(d, out.next, out.diffs.last());
                lemma_comes_when_asked(base, d.next, set.restart_tick);
                assert(out.next.events.drop_last() =~= events);
            }
        }
    }
}

// ---------- drafts, rule by rule ----------

/// Whether a scenario has a rule under an id in the import or the export list of a node: the
/// last one that has the id, or none.
pub open spec fn stands(
    input: ScenarioInputView,
    node: Chars,
    dir: Direction,
    id: Chars,
    rule: Option<RuleView>,
) -> bool {
    let rules = list_in(input.nodes, node, dir);
    match rule {
        Some(r) => input.nodes.dom().contains(node) && exists|i: int|
            0 <= i < rules.len() && (#[trigger] rules[i]) == r && r.id == id && (forall|k: int|
                i < k < rules.len() ==> (#[trigger] rules[k]).id != id),
        None => !input.nodes.dom().contains(node) || lacks(rules, id),
    }
}

/// Whether a difference is about a rule.
pub open spec fn about(d: ConcurrentDiffView, node: Chars, dir: Direction, id: Chars) -> bool {
    &&& d.rule.node == node
    &&& d.rule.direction == (if dir == Direction::Import { "import"@ } else { "export"@ })
    &&& d.rule.rule == id
}

proof fn lemma_last_rule_stands(rules: Seq<RuleView>, id: Chars)
    ensures
        last_rule(rules, id) is None <==> lacks(rules, id),
        last_rule(rules, id) matches Some(r) ==> r.id == id && exists|i: int|
            0 <= i < rules.len() && (#[trigger] rules[i]) == r && (forall|k: int|
                i < k < rules.len() ==> (#[trigger] rules[k]).id != id),
    decreases rules.len(),
{
    if rules.len() > 0 {
        let init = rules.drop_last();
        lemma_last_rule_stands(init, id);
        assert(rules[rules.len() - 1] == rules.last());
        if rules.last().id == id {
            assert(rules[rules.len() - 1] == last_rule(rules, id)->0);
        } else if last_rule(init, id) is Some {
            let r = last_rule(init, id)->0;
            let i = choose|i: int|
                0 <= i < init.len() && (#[trigger] init[i]) == r && (forall|k: int|
                    i < k < init.len() ==> (#[trigger] init[k]).id != id);
            assert(rules[i] == r);
            assert forall|k: int| i < k < rules.len() implies (#[trigger] rules[k]).id != id by {
                if k < init.len() {
                    assert(init[k].id != id);
                }
            }
        } else {
            assert forall|k: int| 0 <= k < rules.len() implies (#[trigger] rules[k]).id != id by {
                if k < init.len() {
                    assert(init[k].id != id);
                }
            }
        }
    }
}

proof fn lemma_stands(
    input: ScenarioInputView,
    node: Chars,
    dir: Direction,
    id: Chars,
    rule: Option<RuleView>,
)
    ensures
        stands(input, node, dir, id, rule) <==> rule == rule_of(
            input,
            ((node, if dir == Direction::Import { "import"@ } else { "export"@ }), id),
        ),
{
    reveal_strlit("import");
    reveal_strlit("export");
    assert("import"@[0] != "export"@[0]);
    let rules = list_in(input.nodes, node, dir);
    lemma_last_rule_stands(rules, id);
    if stands(input, node, dir, id, rule) && rule is Some {
        let r = rule->0;
        let i = choose|i: int|
            0 <= i < rules.len() && (#[trigger] rules[i]) == r && r.id == id && (forall|k: int|
                i < k < rules.len() ==> (#[trigger] rules[k]).id != id);
        assert(rules[i].id == id);
        let s = last_rule(rules, id)->0;
        let j = choose|j: int|
            0 <= j < rules.len() && (#[trigger] rules[j]) == s && (forall|k: int|
                j < k < rules.len() ==> (#[trigger] rules[k]).id != id);
        if i < j {
            assert(rules[j].id != id);
        }
        if j < i {
            assert(rules[i].id != id);
        }
    }
}

/// Drafts are compared rule by rule, import and export alike. A rule is reported exactly where
/// one of the drafts has something else under its id than the base has; the report shows what
/// each of them has, and is a conflict exactly where both have something else than the base,
/// and not the same. It says which of them changed the rule.
pub proof fn law_changed_rule_is_reported(
    base: ScenarioInputView,
    left: ScenarioInputView,
    right: ScenarioInputView,
    node: Chars,
    dir: Direction,
    id: Chars,
    b: Option<RuleView>,
    l: Option<RuleView>,
    r: Option<RuleView>,
)
    requires
        base.nodes.dom().finite(),
        left.nodes.dom().finite(),
        right.nodes.dom().finite(),
        stands(base, node, dir, id, b),
        stands(left, node, dir, id, l),
        stands(right, node, dir, id, r),
    ensures
        ({
            let all = concurrent_diffs(base, left, right);
            &&& (exists|k: int| 0 <= k < all.len() && about(#[trigger] all[k], node, dir, id))
                <==> l != b || r != b
            &&& forall|k: int|
                0 <= k < all.len() && about(#[trigger] all[k], node, dir, id) ==> {
                    &&& all[k].left == l
                    &&& all[k].right == r
                    &&& all[k].conflict <==> l != b && r != b && l != r
                    &&& all[k].detail == (if r == b {
                        "only left draft changed this rule"@
                    } else if l == b {
                        "only right draft changed this rule"@
                    } else if l == r {
                        "both drafts changed this rule identically"@
                    } else {
                        "both drafts changed this rule differently"@
                    })
                }
        }),
{
    let key = ((node, if dir == Direction::Import { "import"@ } else { "export"@ }), id);
    lemma_stands(base, node, dir, id, b);
    lemma_stands(left, node, dir, id, l);
    lemma_stands(right, node, dir, id, r);
    law_concurrent_diff_is_complete(base, left, right, key);
    let all = concurrent_diffs(base, left, right);
    let wanted = |k: RuleKeyView| differs(base, left, k) || differs(base, right, k);
    let keys = in_order::<RuleKey>(rule_keys(base, left, right));
    let f = keys.filter(wanted);
    if l != b || r != b {
        let j = choose|j: int| 0 <= j < all.len() && all[j] == concurrent(base, left, right, key);
        assert(about(all[j], node, dir, id));
    }
    assert forall|k: int| 0 <= k < all.len() && about(#[trigger] all[k], node, dir, id) implies {
        &&& l != b || r != b
        &&& all[k].left == l
        &&& all[k].right == r
        &&& all[k].conflict <==> l != b && r != b && l != r
        &&& all[k].detail == (if r == b {
            "only left draft changed this rule"@
        } else if l == b {
            "only right draft changed this rule"@
        } else if l == r {
            "both drafts changed this rule identically"@
        } else {
            "both drafts changed this rule differently"@
        })
    } by {
        assert(all[k] == concurrent(base, left, right, f[k]));
        keys.lemma_filter_pred(wanted, k);
        assert(f[k] == key);
    }
}

/// A rule that stands in one list of a draft, and is the last with its id there, is reported
/// unless the base has the same rule in the same list; and it is a conflict where the other
/// draft has a third one under that id.
pub proof fn law_new_rule_is_reported(
    base: ScenarioInputView,
    draft: ScenarioInputView,
    other: ScenarioInputView,
    node: Chars,
    dir: Direction,
    i: int,
)
    requires
        base.nodes.dom().finite(),
        draft.nodes.dom().finite(),
        other.nodes.dom().finite(),
        draft.nodes.dom().contains(node),
        0 <= i < list_in(draft.nodes, node, dir).len(),
        forall|k: int|
            i < k < list_in(draft.nodes, node, dir).len() ==> (#[trigger] list_in(
                draft.nodes,
                node,
                dir,
            )[k]).id != list_in(draft.nodes, node, dir)[i].id,
        base.nodes.dom().contains(node) ==> !list_in(base.nodes, node, dir).contains(
            list_in(draft.nodes, node, dir)[i],
        ),
    ensures
        ({
            let rule = list_in(draft.nodes, node, dir)[i];
            let left = concurrent_diffs(base, draft, other);
            let right = concurrent_diffs(base, other, draft);
            &&& exists|k: int|
                0 <= k < left.len() && about(#[trigger] left[k], node, dir, rule.id)
                    && left[k].left == Some(rule)
            &&& exists|k: int|
                0 <= k < right.len() && about(#[trigger] right[k], node, dir, rule.id)
                    && right[k].right == Some(rule)
            &&& forall|r: RuleView|
                r != rule && #[trigger] stands(other, node, dir, rule.id, Some(r)) && !stands(
                    base,
                    node,
                    dir,
                    rule.id,
                    Some(r),
                ) ==> exists|k: int|
                    0 <= k < left.len() && about(#[trigger] left[k], node, dir, rule.id)
                        && left[k].conflict
        }),
{
    let rules = list_in(draft.nodes, node, dir);
    let rule = rules[i];
    let key = ((node, if dir == Direction::Import { "import"@ } else { "export"@ }), rule.id);
    let b = rule_of(base, key);
    let o = rule_of(other, key);
    lemma_stands(base, node, dir, rule.id, b);
    lemma_stands(other, node, dir, rule.id, o);
    assert(rules[i] == rule);
    assert(stands(draft, node, dir, rule.id, Some(rule)));
    assert(b != Some(rule)) by {
        if b == Some(rule) {
            let old_rules = list_in(base.nodes, node, dir);
            let j = choose|j: int|
                0 <= j < old_rules.len() && (#[trigger] old_rules[j]) == rule && rule.id == rule.id
                    && (forall|k: int|
                    j < k < old_rules.len() ==> (#[trigger] old_rules[k]).id != rule.id);
            assert(old_rules.contains(rule));
        }
    }
    law_changed_rule_is_reported(base, draft, other, node, dir, rule.id, b, Some(rule), o);
    law_changed_rule_is_reported(base, other, draft, node, dir, rule.id, b, o, Some(rule));
    let left = concurrent_diffs(base, draft, other);
    let k = choose|k: int| 0 <= k < left.len() && about(#[trigger] left[k], node, dir, rule.id);
    assert(about(left[k], node, dir, rule.id));
    assert forall|r: RuleView|
        r != rule && #[trigger] stands(other, node, dir, rule.id, Some(r)) && !stands(
            base,
            node,
            dir,
            rule.id,
            Some(r),
        ) implies exists|k: int|
        0 <= k < left.len() && about(#[trigger] left[k], node, dir, rule.id)
            && left[k].conflict by {
        lemma_stands(other, node, dir, rule.id, Some(r));
        lemma_stands(base, node, dir, rule.id, Some(r));
        assert(left[k].conflict);
    }
}

/// Every report is about a rule of a list that one of the three scenarios has, and no two
/// are about the same.
pub proof fn law_reports_are_about_rules(
    base: ScenarioInputView,
    left: ScenarioInputView,
    right: ScenarioInputView,
    i: int,
)
    requires
        base.nodes.dom().finite(),
        left.nodes.dom().finite(),
        right.nodes.dom().finite(),
        0 <= i < concurrent_diffs(base, left, right).len(),
    ensures
        ({
            let all = concurrent_diffs(base, left, right);
            let key = all[i].rule;
            &&& exists|dir: Direction| #[trigger] about(all[i], key.node, dir, key.rule)
            &&& base.nodes.dom().contains(key.node) || left.nodes.dom().contains(key.node)
                || right.nodes.dom().contains(key.node)
            &&& forall|j: int| 0 <= j < all.len() && j != i ==> (#[trigger] all[j]).rule != key
        }),
{
    let dom = rule_keys(base, left, right);
    let keys = in_order::<RuleKey>(dom);
    lemma_keys_finite(base.nodes.dom(), base);
    lemma_keys_finite(left.nodes.dom(), left);
    lemma_keys_finite(right.nodes.dom(), right);
    assert(dom =~= keys_at(base.nodes.dom(), base).union(
        keys_at(left.nodes.dom(), left),
    ).union(keys_at(right.nodes.dom(), right)));
    crate::ordmap::lemma_in_order_exists::<RuleKey>(dom);
    let wanted = |k: RuleKeyView| differs(base, left, k) || differs(base, right, k);
    let f = keys.filter(wanted);
    let all = concurrent_diffs(base, left, right);
    assert(f.contains(f[i]));
    keys.lemma_filter_contains_rev(wanted, f[i]);
    assert(keys.to_set().contains(f[i]));
    assert(dom.contains(f[i]));
    let key = f[i];
    assert(all[i] == concurrent(base, left, right, key));
    if key.0.1 == "import"@ {
        assert(about(all[i], key.0.0, Direction::Import, key.1));
    } else {
        assert(about(all[i], key.0.0, Direction::Export, key.1));
    }
    assert(keys.no_duplicates()) by {
        assert forall|x: int, y: int| 0 <= x < y < keys.len() implies keys[x] != keys[y] by {
            assert(<RuleKey as crate::ordmap::Key>::lt(keys[x], keys[y]));
            <RuleKey as crate::ordmap::Key>::lt_irreflexive(keys[x]);
        }
    }
    lemma_filter_distinct(keys, wanted);
    assert forall|j: int| 0 <= j < all.len() && j != i implies (#[trigger] all[j]).rule
        != all[i].rule by {
        assert(all[j] == concurrent(base, left, right, f[j]));
        assert(f[j] != f[i]);
    }
}

proof fn lemma_filter_distinct(keys: Seq<RuleKeyView>, p: spec_fn(RuleKeyView) -> bool)
    requires
        keys.no_duplicates(),
    ensures
        keys.filter(p).no_duplicates(),
    decreases keys.len(),
{
    if keys.len() == 0 {
        reveal(Seq::filter);
    } else {
        let init = keys.drop_last();
        let last = keys.last();
        assert(init.no_duplicates());
        lemma_filter_distinct(init, p);
        assert(keys =~= init.push(last));
        init.lemma_filter_push(last, p);
        let f = init.filter(p);
        assert forall|x: int| 0 <= x < f.len() implies #[trigger] f[x] != last by {
            assert(f.contains(f[x]));
            init.lemma_filter_contains_rev(p, f[x]);
            let y = choose|y: int| 0 <= y < init.len() && init[y] == f[x];
            assert(keys[y] == f[x] && keys[keys.len() - 1] == last);
        }
    }
}

} // verus!
