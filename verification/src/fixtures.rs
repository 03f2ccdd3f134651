//! Built-in demonstration scenarios: loops, attribute rewrites and equal-cost paths.

use crate::engine::runnable;
use crate::model::{
    Action, ActionView, Announcement, AnnouncementView, EventSpec, EventSpecView, Match,
    MatchView, NodeId, NodeSpec, NodeSpecView, OnMatch, Policy, PolicyView, Rule, RuleView,
    ScenarioInput, ScenarioInputView, Session, SessionKind, SessionView,
};
use crate::ordmap::OrdMap;
use crate::rib::{lemma_link_exists, link};
use crate::text::{str_eq, Chars};
use vstd::prelude::*;

verus! {

// ---------- parts ----------

/// A node of a fixture.
pub open spec fn node_view(
    asn: u32,
    x: Chars,
    y: Chars,
    import: Seq<RuleView>,
    export: Seq<RuleView>,
) -> NodeSpecView {
    NodeSpecView { asn, x, y, policy: PolicyView { import, export } }
}

fn node(asn: u32, x: &str, y: &str, import: Vec<Rule>, export: Vec<Rule>) -> (r: NodeSpec)
    ensures
        r@ == node_view(asn, x@, y@, import.deep_view(), export.deep_view()),
{
    NodeSpec { asn, x: x.to_owned(), y: y.to_owned(), policy: Policy { import, export } }
}

/// An eBGP session of a fixture.
pub open spec fn sess_view(id: Chars, local: Chars, remote: Chars, delay: u64) -> SessionView {
    SessionView { id, local, remote, kind: SessionKind::EBgp, delay }
}

fn sess(id: &str, local: &str, remote: &str, delay: u64) -> (r: Session)
    ensures
        r@ == sess_view(id@, local@, remote@, delay),
{
    Session {
        id: id.to_owned(),
        local: local.to_owned(),
        remote: remote.to_owned(),
        kind: SessionKind::EBgp,
        delay,
    }
}

/// A rule of a fixture.
pub open spec fn rule_view(
    id: Chars,
    description: Chars,
    when: MatchView,
    do_: ActionView,
    on_match: OnMatch,
) -> RuleView {
    RuleView { id, description, when, do_, on_match }
}

fn rule(id: &str, description: &str, when: Match, do_: Action, on_match: OnMatch) -> (r: Rule)
    ensures
        r@ == rule_view(id@, description@, when@, do_@, on_match),
{
    Rule { id: id.to_owned(), description: description.to_owned(), when, do_, on_match }
}

/// The condition that a route comes from, or goes to, a peer.
pub open spec fn with_peer(peer: Chars) -> MatchView {
    MatchView { peer: Some(peer), ..MatchView::empty() }
}

fn peer_is(peer: &str) -> (r: Match)
    ensures
        r@ == with_peer(peer@),
{
    let mut m = Match::default();
    m.peer = Some(peer.to_owned());
    assert(m@ =~= with_peer(peer@));
    m
}

/// The condition that a route carries a community.
pub open spec fn with_community(community: Chars) -> MatchView {
    MatchView { community_any: seq![community], ..MatchView::empty() }
}

fn one(s: &str) -> (r: Vec<String>)
    ensures
        r.deep_view() == seq![s@],
{
    let mut v: Vec<String> = Vec::new();
    v.push(s.to_owned());
    assert(v.deep_view() =~= seq![s@]);
    v
}

fn community_is(community: &str) -> (r: Match)
    ensures
        r@ == with_community(community@),
{
    let mut m = Match::default();
    m.community_any = one(community);
    assert(m@ =~= with_community(community@));
    m
}

/// An announcement of a fixture.
pub open spec fn announcement_view(
    id: Chars,
    node: Chars,
    prefix: Chars,
    med: i64,
    communities: Seq<Chars>,
) -> AnnouncementView {
    AnnouncementView { id, node, prefix, local_pref: 100, med: Some(med), communities }
}

fn announcement(id: &str, node: &str, prefix: &str, med: i64, communities: Vec<String>) -> (r:
    Announcement)
    ensures
        r@ == announcement_view(id@, node@, prefix@, med, communities.deep_view()),
{
    Announcement {
        id: id.to_owned(),
        node: node.to_owned(),
        prefix: prefix.to_owned(),
        local_pref: 100,
        med: Some(med),
        communities,
    }
}

fn no_rules() -> (r: Vec<Rule>)
    ensures
        r.deep_view() == Seq::<RuleView>::empty(),
{
    let v: Vec<Rule> = Vec::new();
    assert(v.deep_view() =~= Seq::empty());
    v
}

fn no_strings() -> (r: Vec<String>)
    ensures
        r.deep_view() == Seq::<Chars>::empty(),
{
    let v: Vec<String> = Vec::new();
    assert(v.deep_view() =~= Seq::empty());
    v
}

/// A scenario all of whose sessions and announcements have their nodes, and that restarts
/// no node, can run.
proof fn lemma_complete_runs(input: ScenarioInputView)
    requires
        forall|i: int|
            0 <= i < input.sessions.len() ==> {
                &&& input.nodes.dom().contains((#[trigger] input.sessions[i]).local)
                &&& input.nodes.dom().contains(input.sessions[i].remote)
            },
        forall|i: int|
            0 <= i < input.announcements.len() ==> input.nodes.dom().contains(
                (#[trigger] input.announcements[i]).node,
            ),
        forall|i: int| 0 <= i < input.events.len() ==> #[trigger] input.events[i] is Withdraw,
    ensures
        runnable(input),
{
    let links = input.sessions;
    assert forall|i: int| 0 <= i < links.len() implies input.nodes.dom().contains(
        (link(links, (#[trigger] links[i]).id)->0).remote,
    ) by {
        lemma_link_exists(links, i);
        let s = link(links, links[i].id)->0;
        let j = choose|j: int| 0 <= j < links.len() && links[j] == s;
        assert(input.nodes.dom().contains(links[j].remote));
    }
}

// ---------- basic-preferences ----------

/// The import rules of R2 in `basic-preferences`.
pub open spec fn basic_preferences_r2_import() -> Seq<RuleView> {
    seq![
        rule_view(
            "trust-r1"@,
            "raise preference for routes learned from R1"@,
            with_peer("R1"@),
            ActionView {
                set_local_pref: Some(300),
                add_community: Some("65002:trusted"@),
                ..ActionView::empty()
            },
            OnMatch::Continue,
        ),
    ]
}

fn build_basic_preferences_r2_import() -> (r: Vec<Rule>)
    ensures
        r.deep_view() == basic_preferences_r2_import(),
{
    let mut rules: Vec<Rule> = Vec::new();
    let mut action = Action::default();
    action.set_local_pref = Some(300);
    action.add_community = Some("65002:trusted".to_owned());
    assert(action@ =~= basic_preferences_r2_import()[0].do_);
    rules.push(
        rule(
            "trust-r1",
            "raise preference for routes learned from R1",
            peer_is("R1"),
            action,
            OnMatch::Continue,
        ),
    );
    assert(rules.deep_view() =~= basic_preferences_r2_import());
    rules
}

/// The export rules of R2 in `basic-preferences`.
pub open spec fn basic_preferences_r2_export() -> Seq<RuleView> {
    seq![
        rule_view(
            "tag-multi-exit"@,
            "tag routes exported to R3"@,
            MatchView::empty(),
            ActionView { add_community: Some("65002:exit-A"@), ..ActionView::empty() },
            OnMatch::Continue,
        ),
    ]
}

fn build_basic_preferences_r2_export() -> (r: Vec<Rule>)
    ensures
        r.deep_view() == basic_preferences_r2_export(),
{
    let mut rules: Vec<Rule> = Vec::new();
    let mut action = Action::default();
    action.add_community = Some("65002:exit-A".to_owned());
    assert(action@ =~= basic_preferences_r2_export()[0].do_);
    rules.push(
        rule(
            "tag-multi-exit",
            "tag routes exported to R3",
            Match::default(),
            action,
            OnMatch::Continue,
        ),
    );
    assert(rules.deep_view() =~= basic_preferences_r2_export());
    rules
}

/// The import rules of R3 in `basic-preferences`.
pub open spec fn basic_preferences_r3_import() -> Seq<RuleView> {
    seq![
        rule_view(
            "prefer-community"@,
            "prefer routes carrying the 65002:exit-A community"@,
            with_community("65002:exit-A"@),
            ActionView { set_local_pref: Some(250), ..ActionView::empty() },
            OnMatch::Continue,
        ),
        rule_view(
            "block-no-community"@,
            "demonstrate miss-continue (never terminates here)"@,
            with_community("65009:nope"@),
            ActionView::empty(),
            OnMatch::Reject,
        ),
    ]
}

fn build_basic_preferences_r3_import() -> (r: Vec<Rule>)
    ensures
        r.deep_view() == basic_preferences_r3_import(),
{
    let mut rules: Vec<Rule> = Vec::new();
    let mut action = Action::default();
    action.set_local_pref = Some(250);
    assert(action@ =~= basic_preferences_r3_import()[0].do_);
    rules.push(
        rule(
            "prefer-community",
            "prefer routes carrying the 65002:exit-A community",
            community_is("65002:exit-A"),
            action,
            OnMatch::Continue,
        ),
    );
    rules.push(
        rule(
            "block-no-community",
            "demonstrate miss-continue (never terminates here)",
            community_is("65009:nope"),
            Action::default(),
            OnMatch::Reject,
        ),
    );
    assert(rules.deep_view() =~= basic_preferences_r3_import());
    rules
}

/// The nodes of `basic-preferences`.
pub open spec fn basic_preferences_nodes() -> Map<Chars, NodeSpecView> {
    Map::empty()
        .insert("R1"@, node_view(65001, "60.0"@, "200.0"@, Seq::empty(), Seq::empty()))
        .insert(
            "R2"@,
            node_view(
                65002,
                "260.0"@,
                "120.0"@,
                basic_preferences_r2_import(),
                basic_preferences_r2_export(),
            ),
        )
        .insert(
            "R3"@,
            node_view(65003, "480.0"@, "200.0"@, basic_preferences_r3_import(), Seq::empty()),
        )
        .insert("R4"@, node_view(65004, "260.0"@, "320.0"@, Seq::empty(), Seq::empty()))
}

/// The sessions of `basic-preferences`.
pub open spec fn basic_preferences_sessions() -> Seq<SessionView> {
    seq![
        sess_view("R1-R2"@, "R1"@, "R2"@, 1),
        sess_view("R2-R1"@, "R2"@, "R1"@, 1),
        sess_view("R2-R3"@, "R2"@, "R3"@, 2),
        sess_view("R3-R2"@, "R3"@, "R2"@, 2),
        sess_view("R2-R4"@, "R2"@, "R4"@, 3),
        sess_view("R4-R2"@, "R4"@, "R2"@, 3),
        sess_view("R4-R3"@, "R4"@, "R3"@, 1),
        sess_view("R3-R4"@, "R3"@, "R4"@, 1),
    ]
}

/// The scenario `basic-preferences`.
pub open spec fn basic_preferences_scenario() -> ScenarioInputView {
    ScenarioInputView {
        name: "basic-preferences"@,
        description: "Local-pref / MED / community rewrite with miss-continue evidence."@,
        nodes: basic_preferences_nodes(),
        sessions: basic_preferences_sessions(),
        announcements: seq![
            announcement_view("ann-prefix-a"@, "R1"@, "10.10.0.0/16"@, 0, seq!["65001:origin"@]),
        ],
        events: seq![
            EventSpecView::Withdraw {
                id: "manual-withdraw-a"@,
                announcement: "ann-prefix-a"@,
                tick: 40,
            },
        ],
        max_iterations: 100_000,
    }
}

fn build_basic_preferences_nodes() -> (r: OrdMap<NodeId, NodeSpec>)
    ensures
        r@ == basic_preferences_nodes(),
{
    let mut nodes: OrdMap<NodeId, NodeSpec> = OrdMap::new();
    nodes.insert("R1".to_owned(), node(65001, "60.0", "200.0", no_rules(), no_rules()));
    nodes.insert(
        "R2".to_owned(),
        node(
            65002,
            "260.0",
            "120.0",
            build_basic_preferences_r2_import(),
            build_basic_preferences_r2_export(),
        ),
    );
    nodes.insert(
        "R3".to_owned(),
        node(65003, "480.0", "200.0", build_basic_preferences_r3_import(), no_rules()),
    );
    nodes.insert("R4".to_owned(), node(65004, "260.0", "320.0", no_rules(), no_rules()));
    nodes
}

fn build_basic_preferences_sessions() -> (r: Vec<Session>)
    ensures
        r.deep_view() == basic_preferences_sessions(),
{
    let mut sessions: Vec<Session> = Vec::new();
    sessions.push(sess("R1-R2", "R1", "R2", 1));
    sessions.push(sess("R2-R1", "R2", "R1", 1));
    sessions.push(sess("R2-R3", "R2", "R3", 2));
    sessions.push(sess("R3-R2", "R3", "R2", 2));
    sessions.push(sess("R2-R4", "R2", "R4", 3));
    sessions.push(sess("R4-R2", "R4", "R2", 3));
    sessions.push(sess("R4-R3", "R4", "R3", 1));
    sessions.push(sess("R3-R4", "R3", "R4", 1));
    assert(sessions.deep_view() =~= basic_preferences_sessions());
    sessions
}

/// Simple AS-path / local-pref preference over a four-node chain and a peer.
/// Topology:  AS65001 (R1 origin) -- eBGP -- R2 (AS65002) -- R3 (AS65003)
///                                   \-- eBGP -- R4 (AS65004) -- R3
/// R2 prefers the direct path via import local-pref policy rewrite.
pub fn basic_preferences() -> (r: ScenarioInput)
    ensures
        r@ == basic_preferences_scenario(),
        runnable(r@),
{
    let mut announcements: Vec<Announcement> = Vec::new();
    announcements.push(announcement("ann-prefix-a", "R1", "10.10.0.0/16", 0, one("65001:origin")));
    assert(announcements.deep_view() =~= basic_preferences_scenario().announcements);
    let mut events: Vec<EventSpec> = Vec::new();
    events.push(
        EventSpec::Withdraw {
            id: "manual-withdraw-a".to_owned(),
            announcement: "ann-prefix-a".to_owned(),
            tick: 40,
        },
    );
    assert(events.deep_view() =~= basic_preferences_scenario().events);
    let r = ScenarioInput {
        name: "basic-preferences".to_owned(),
        description: "Local-pref / MED / community rewrite with miss-continue evidence.".to_owned(),
        nodes: build_basic_preferences_nodes(),
        sessions: build_basic_preferences_sessions(),
        announcements,
        events,
        max_iterations: 100_000,
    };
    proof {
        assert(r@ =~= basic_preferences_scenario());
        lemma_complete_runs(r@);
    }
    r
}

// ---------- med-community-rewrite ----------

/// The export rules of B in `med-community-rewrite`.
pub open spec fn med_community_rewrite_b_export() -> Seq<RuleView> {
    seq![
        rule_view(
            "set-med-50"@,
            "lower MED toward C"@,
            with_peer("C"@),
            ActionView {
                set_med: Some(50),
                add_community: Some("65102:low-med"@),
                ..ActionView::empty()
            },
            OnMatch::Continue,
        ),
        rule_view(
            "strip-origin-tag"@,
            "remove origin community on export"@,
            MatchView::empty(),
            ActionView {
                remove_communities: seq!["65101:internal"@],
                ..ActionView::empty()
            },
            OnMatch::Continue,
        ),
    ]
}

fn build_med_community_rewrite_b_export() -> (r: Vec<Rule>)
    ensures
        r.deep_view() == med_community_rewrite_b_export(),
{
    let mut rules: Vec<Rule> = Vec::new();
    let mut action = Action::default();
    action.set_med = Some(50);
    action.add_community = Some("65102:low-med".to_owned());
    assert(action@ =~= med_community_rewrite_b_export()[0].do_);
    rules.push(
        rule(
            "set-med-50",
            "lower MED toward C",
            peer_is("C"),
            action,
            OnMatch::Continue,
        ),
    );
    let mut action = Action::default();
    action.remove_communities = one("65101:internal");
    assert(action@ =~= med_community_rewrite_b_export()[1].do_);
    rules.push(
        rule(
            "strip-origin-tag",
            "remove origin community on export",
            Match::default(),
            action,
            OnMatch::Continue,
        ),
    );
    assert(rules.deep_view() =~= med_community_rewrite_b_export());
    rules
}

/// The import rules of C in `med-community-rewrite`.
pub open spec fn med_community_rewrite_c_import() -> Seq<RuleView> {
    seq![
        rule_view(
            "reject-high-community"@,
            "terminate-reject on quarantine community"@,
            with_community("65109:quarantine"@),
            ActionView::empty(),
            OnMatch::Reject,
        ),
    ]
}

fn build_med_community_rewrite_c_import() -> (r: Vec<Rule>)
    ensures
        r.deep_view() == med_community_rewrite_c_import(),
{
    let mut rules: Vec<Rule> = Vec::new();
    rules.push(
        rule(
            "reject-high-community",
            "terminate-reject on quarantine community",
            community_is("65109:quarantine"),
            Action::default(),
            OnMatch::Reject,
        ),
    );
    assert(rules.deep_view() =~= med_community_rewrite_c_import());
    rules
}

/// The nodes of `med-community-rewrite`.
pub open spec fn med_community_rewrite_nodes() -> Map<Chars, NodeSpecView> {
    Map::empty()
        .insert("A"@, node_view(65101, "80.0"@, "160.0"@, Seq::empty(), Seq::empty()))
        .insert(
            "B"@,
            node_view(65102, "280.0"@, "120.0"@, Seq::empty(), med_community_rewrite_b_export()),
        )
        .insert("D"@, node_view(65104, "280.0"@, "300.0"@, Seq::empty(), Seq::empty()))
        .insert(
            "C"@,
            node_view(65103, "500.0"@, "210.0"@, med_community_rewrite_c_import(), Seq::empty()),
        )
}

/// The sessions of `med-community-rewrite`.
pub open spec fn med_community_rewrite_sessions() -> Seq<SessionView> {
    seq![
        sess_view("A-B"@, "A"@, "B"@, 1),
        sess_view("B-A"@, "B"@, "A"@, 1),
        sess_view("A-D"@, "A"@, "D"@, 1),
        sess_view("D-A"@, "D"@, "A"@, 1),
        sess_view("B-C"@, "B"@, "C"@, 1),
        sess_view("C-B"@, "C"@, "B"@, 1),
        sess_view("D-C"@, "D"@, "C"@, 1),
        sess_view("C-D"@, "C"@, "D"@, 1),
    ]
}

/// The scenario `med-community-rewrite`.
pub open spec fn med_community_rewrite_scenario() -> ScenarioInputView {
    ScenarioInputView {
        name: "med-community-rewrite"@,
        description: "MED set via hit-continue; later rules and conditions see rewritten values; terminate-reject demo."@,
        nodes: med_community_rewrite_nodes(),
        sessions: med_community_rewrite_sessions(),
        announcements: seq![
            announcement_view("ann-med"@, "A"@, "172.16.5.0/24"@, 200, seq!["65101:internal"@]),
        ],
        events: Seq::empty(),
        max_iterations: 100_000,
    }
}

fn build_med_community_rewrite_nodes() -> (r: OrdMap<NodeId, NodeSpec>)
    ensures
        r@ == med_community_rewrite_nodes(),
{
    let mut nodes: OrdMap<NodeId, NodeSpec> = OrdMap::new();
    nodes.insert("A".to_owned(), node(65101, "80.0", "160.0", no_rules(), no_rules()));
    nodes.insert(
        "B".to_owned(),
        node(65102, "280.0", "120.0", no_rules(), build_med_community_rewrite_b_export()),
    );
    nodes.insert("D".to_owned(), node(65104, "280.0", "300.0", no_rules(), no_rules()));
    nodes.insert(
        "C".to_owned(),
        node(65103, "500.0", "210.0", build_med_community_rewrite_c_import(), no_rules()),
    );
    nodes
}

fn build_med_community_rewrite_sessions() -> (r: Vec<Session>)
    ensures
        r.deep_view() == med_community_rewrite_sessions(),
{
    let mut sessions: Vec<Session> = Vec::new();
    sessions.push(sess("A-B", "A", "B", 1));
    sessions.push(sess("B-A", "B", "A", 1));
    sessions.push(sess("A-D", "A", "D", 1));
    sessions.push(sess("D-A", "D", "A", 1));
    sessions.push(sess("B-C", "B", "C", 1));
    sessions.push(sess("C-B", "C", "B", 1));
    sessions.push(sess("D-C", "D", "C", 1));
    sessions.push(sess("C-D", "C", "D", 1));
    assert(sessions.deep_view() =~= med_community_rewrite_sessions());
    sessions
}

/// MED and community rewrite, and community-scoped termination.
pub fn med_community_rewrite() -> (r: ScenarioInput)
    ensures
        r@ == med_community_rewrite_scenario(),
        runnable(r@),
{
    let mut announcements: Vec<Announcement> = Vec::new();
    announcements.push(announcement("ann-med", "A", "172.16.5.0/24", 200, one("65101:internal")));
    assert(announcements.deep_view() =~= med_community_rewrite_scenario().announcements);
    let events: Vec<EventSpec> = Vec::new();
    assert(events.deep_view() =~= med_community_rewrite_scenario().events);
    let r = ScenarioInput {
        name: "med-community-rewrite".to_owned(),
        description: "MED set via hit-continue; later rules and conditions see rewritten values; terminate-reject demo.".to_owned(),
        nodes: build_med_community_rewrite_nodes(),
        sessions: build_med_community_rewrite_sessions(),
        announcements,
        events,
        max_iterations: 100_000,
    };
    proof {
        assert(r@ =~= med_community_rewrite_scenario());
        lemma_complete_runs(r@);
    }
    r
}

// ---------- as-path-loop ----------

/// The export rules of Y in `as-path-loop`.
pub open spec fn as_path_loop_y_export() -> Seq<RuleView> {
    seq![
        rule_view(
            "prep-toward-x"@,
            "extra own-AS prepend lengthens path to X"@,
            with_peer("X"@),
            ActionView { as_path_prepend: Some(1), ..ActionView::empty() },
            OnMatch::Continue,
        ),
    ]
}

fn build_as_path_loop_y_export() -> (r: Vec<Rule>)
    ensures
        r.deep_view() == as_path_loop_y_export(),
{
    let mut rules: Vec<Rule> = Vec::new();
    let mut action = Action::default();
    action.as_path_prepend = Some(1);
    assert(action@ =~= as_path_loop_y_export()[0].do_);
    rules.push(
        rule(
            "prep-toward-x",
            "extra own-AS prepend lengthens path to X",
            peer_is("X"),
            action,
            OnMatch::Continue,
        ),
    );
    assert(rules.deep_view() =~= as_path_loop_y_export());
    rules
}

/// The import rules of Z in `as-path-loop`.
pub open spec fn as_path_loop_z_import() -> Seq<RuleView> {
    seq![
        rule_view(
            "annotate"@,
            "would tag accepted routes; the mandatory AS_PATH loop check runs first and refuses"@,
            MatchView::empty(),
            ActionView { add_community: Some("65201:checked"@), ..ActionView::empty() },
            OnMatch::Continue,
        ),
    ]
}

fn build_as_path_loop_z_import() -> (r: Vec<Rule>)
    ensures
        r.deep_view() == as_path_loop_z_import(),
{
    let mut rules: Vec<Rule> = Vec::new();
    let mut action = Action::default();
    action.add_community = Some("65201:checked".to_owned());
    assert(action@ =~= as_path_loop_z_import()[0].do_);
    rules.push(
        rule(
            "annotate",
            "would tag accepted routes; the mandatory AS_PATH loop check runs first and refuses",
            Match::default(),
            action,
            OnMatch::Continue,
        ),
    );
    assert(rules.deep_view() =~= as_path_loop_z_import());
    rules
}

/// The nodes of `as-path-loop`.
pub open spec fn as_path_loop_nodes() -> Map<Chars, NodeSpecView> {
    Map::empty()
        .insert("S"@, node_view(65201, "80.0"@, "200.0"@, Seq::empty(), Seq::empty()))
        .insert("Y"@, node_view(65204, "300.0"@, "200.0"@, Seq::empty(), as_path_loop_y_export()))
        .insert("Z"@, node_view(65201, "520.0"@, "300.0"@, as_path_loop_z_import(), Seq::empty()))
        .insert("X"@, node_view(65201, "520.0"@, "120.0"@, Seq::empty(), Seq::empty()))
}

/// The sessions of `as-path-loop`.
pub open spec fn as_path_loop_sessions() -> Seq<SessionView> {
    seq![
        sess_view("S-Y"@, "S"@, "Y"@, 1),
        sess_view("Y-S"@, "Y"@, "S"@, 1),
        sess_view("Y-X"@, "Y"@, "X"@, 1),
        sess_view("X-Y"@, "X"@, "Y"@, 1),
        sess_view("Y-Z"@, "Y"@, "Z"@, 1),
        sess_view("Z-Y"@, "Z"@, "Y"@, 1),
    ]
}

/// The scenario `as-path-loop`.
pub open spec fn as_path_loop_scenario() -> ScenarioInputView {
    ScenarioInputView {
        name: "as-path-loop"@,
        description: "Import-side AS_PATH loop rejection (X re-enters AS 65201) plus export-side suppression."@,
        nodes: as_path_loop_nodes(),
        sessions: as_path_loop_sessions(),
        announcements: seq![
            announcement_view("ann-loop"@, "S"@, "192.0.2.0/24"@, 0, Seq::empty()),
        ],
        events: Seq::empty(),
        max_iterations: 100_000,
    }
}

fn build_as_path_loop_nodes() -> (r: OrdMap<NodeId, NodeSpec>)
    ensures
        r@ == as_path_loop_nodes(),
{
    let mut nodes: OrdMap<NodeId, NodeSpec> = OrdMap::new();
    nodes.insert("S".to_owned(), node(65201, "80.0", "200.0", no_rules(), no_rules()));
    nodes.insert(
        "Y".to_owned(),
        node(65204, "300.0", "200.0", no_rules(), build_as_path_loop_y_export()),
    );
    nodes.insert(
        "Z".to_owned(),
        node(65201, "520.0", "300.0", build_as_path_loop_z_import(), no_rules()),
    );
    nodes.insert("X".to_owned(), node(65201, "520.0", "120.0", no_rules(), no_rules()));
    nodes
}

fn build_as_path_loop_sessions() -> (r: Vec<Session>)
    ensures
        r.deep_view() == as_path_loop_sessions(),
{
    let mut sessions: Vec<Session> = Vec::new();
    sessions.push(sess("S-Y", "S", "Y", 1));
    sessions.push(sess("Y-S", "Y", "S", 1));
    sessions.push(sess("Y-X", "Y", "X", 1));
    sessions.push(sess("X-Y", "X", "Y", 1));
    sessions.push(sess("Y-Z", "Y", "Z", 1));
    sessions.push(sess("Z-Y", "Z", "Y", 1));
    assert(sessions.deep_view() =~= as_path_loop_sessions());
    sessions
}

/// AS_PATH loop evidence.
///
/// S (AS 65201) originates. X is another border router in AS 65201. The route walks
/// S -> Y (AS 65204) -> X (eBGP session back into AS 65201). The AS_PATH that comes in at
/// X already contains its own AS: the import-side mandatory loop check refuses it with
/// explicit evidence. A direct session from S to X is deliberately absent, so that the
/// route reaches X over Y only. Z, which is in AS 65201 too, refuses it likewise; toward X
/// the path is lengthened by an extra prepend.
pub fn as_path_loop() -> (r: ScenarioInput)
    ensures
        r@ == as_path_loop_scenario(),
        runnable(r@),
{
    let mut announcements: Vec<Announcement> = Vec::new();
    announcements.push(announcement("ann-loop", "S", "192.0.2.0/24", 0, no_strings()));
    assert(announcements.deep_view() =~= as_path_loop_scenario().announcements);
    let events: Vec<EventSpec> = Vec::new();
    assert(events.deep_view() =~= as_path_loop_scenario().events);
    let r = ScenarioInput {
        name: "as-path-loop".to_owned(),
        description: "Import-side AS_PATH loop rejection (X re-enters AS 65201) plus export-side suppression.".to_owned(),
        nodes: build_as_path_loop_nodes(),
        sessions: build_as_path_loop_sessions(),
        announcements,
        events,
        max_iterations: 100_000,
    };
    proof {
        assert(r@ =~= as_path_loop_scenario());
        lemma_complete_runs(r@);
    }
    r
}

// ---------- equal-paths ----------

/// The nodes of `equal-paths`.
pub open spec fn equal_paths_nodes() -> Map<Chars, NodeSpecView> {
    Map::empty()
        .insert("E"@, node_view(65305, "120.0"@, "110.0"@, Seq::empty(), Seq::empty()))
        .insert("F"@, node_view(65305, "120.0"@, "310.0"@, Seq::empty(), Seq::empty()))
        .insert("G"@, node_view(65307, "380.0"@, "210.0"@, Seq::empty(), Seq::empty()))
}

/// The sessions of `equal-paths`.
pub open spec fn equal_paths_sessions() -> Seq<SessionView> {
    seq![
        sess_view("E-G"@, "E"@, "G"@, 1),
        sess_view("G-E"@, "G"@, "E"@, 1),
        sess_view("F-G"@, "F"@, "G"@, 1),
        sess_view("G-F"@, "G"@, "F"@, 1),
    ]
}

/// The scenario `equal-paths`.
pub open spec fn equal_paths_scenario() -> ScenarioInputView {
    ScenarioInputView {
        name: "equal-paths"@,
        description: "Identical attributes from two eBGP peers; deterministic final tie-break."@,
        nodes: equal_paths_nodes(),
        sessions: equal_paths_sessions(),
        announcements: seq![
            announcement_view("ann-e"@, "E"@, "203.0.113.0/24"@, 10, seq!["shared:peer"@]),
            announcement_view("ann-f"@, "F"@, "203.0.113.0/24"@, 10, seq!["shared:peer"@]),
        ],
        events: Seq::empty(),
        max_iterations: 100_000,
    }
}

fn build_equal_paths_nodes() -> (r: OrdMap<NodeId, NodeSpec>)
    ensures
        r@ == equal_paths_nodes(),
{
    let mut nodes: OrdMap<NodeId, NodeSpec> = OrdMap::new();
    nodes.insert("E".to_owned(), node(65305, "120.0", "110.0", no_rules(), no_rules()));
    nodes.insert("F".to_owned(), node(65305, "120.0", "310.0", no_rules(), no_rules()));
    nodes.insert("G".to_owned(), node(65307, "380.0", "210.0", no_rules(), no_rules()));
    nodes
}

fn build_equal_paths_sessions() -> (r: Vec<Session>)
    ensures
        r.deep_view() == equal_paths_sessions(),
{
    let mut sessions: Vec<Session> = Vec::new();
    sessions.push(sess("E-G", "E", "G", 1));
    sessions.push(sess("G-E", "G", "E", 1));
    sessions.push(sess("F-G", "F", "G", 1));
    sessions.push(sess("G-F", "G", "F", 1));
    assert(sessions.deep_view() =~= equal_paths_sessions());
    sessions
}

/// Two providers E and F advertise the same prefix with identical attributes to G; the
/// final selection is a stable, explainable tie-break independent of ordering.
///
/// E and F are two eBGP speakers in the same upstream AS 65305, so at G both routes carry
/// an identical AS_PATH [65305], identical MED, local preference and community, and only
/// differ by ingress neighbor.
pub fn equal_paths() -> (r: ScenarioInput)
    ensures
        r@ == equal_paths_scenario(),
        runnable(r@),
{
    let mut announcements: Vec<Announcement> = Vec::new();
    announcements.push(announcement("ann-e", "E", "203.0.113.0/24", 10, one("shared:peer")));
    announcements.push(announcement("ann-f", "F", "203.0.113.0/24", 10, one("shared:peer")));
    assert(announcements.deep_view() =~= equal_paths_scenario().announcements);
    let events: Vec<EventSpec> = Vec::new();
    assert(events.deep_view() =~= equal_paths_scenario().events);
    let r = ScenarioInput {
        name: "equal-paths".to_owned(),
        description: "Identical attributes from two eBGP peers; deterministic final tie-break.".to_owned(),
        nodes: build_equal_paths_nodes(),
        sessions: build_equal_paths_sessions(),
        announcements,
        events,
        max_iterations: 100_000,
    };
    proof {
        assert(r@ =~= equal_paths_scenario());
        lemma_complete_runs(r@);
    }
    r
}

// ---------- dispute-wheel ----------

/// The preferences of a customer of the wheel.
pub open spec fn wheel_rules(first: Chars, second: Chars) -> Seq<RuleView> {
    seq![
        rule_view(
            "prefer-first-peer"@,
            "routes learned from "@ + first + " are most preferred"@,
            with_peer(first),
            ActionView { set_local_pref: Some(200), ..ActionView::empty() },
            OnMatch::Continue,
        ),
        rule_view(
            "prefer-second-peer"@,
            "routes learned from "@ + second + " are second choice"@,
            with_peer(second),
            ActionView { set_local_pref: Some(90), ..ActionView::empty() },
            OnMatch::Continue,
        ),
        rule_view(
            "direct-provider"@,
            "direct route to provider P is least preferred"@,
            with_peer("P"@),
            ActionView { set_local_pref: Some(50), ..ActionView::empty() },
            OnMatch::Continue,
        ),
    ]
}

fn prefer(local_pref: i64) -> (r: Action)
    ensures
        r@ == (ActionView { set_local_pref: Some(local_pref), ..ActionView::empty() }),
{
    let mut a = Action::default();
    a.set_local_pref = Some(local_pref);
    assert(a@ =~= (ActionView { set_local_pref: Some(local_pref), ..ActionView::empty() }));
    a
}

fn wheel_policy(first: &str, second: &str) -> (r: Vec<Rule>)
    ensures
        r.deep_view() == wheel_rules(first@, second@),
{
    let mut rules: Vec<Rule> = Vec::new();
    let one = "routes learned from ".to_owned().concat(first).concat(" are most preferred");
    let two = "routes learned from ".to_owned().concat(second).concat(" are second choice");
    rules.push(
        rule("prefer-first-peer", one.as_str(), peer_is(first), prefer(200), OnMatch::Continue),
    );
    rules.push(
        rule("prefer-second-peer", two.as_str(), peer_is(second), prefer(90), OnMatch::Continue),
    );
    rules.push(
        rule(
            "direct-provider",
            "direct route to provider P is least preferred",
            peer_is("P"),
            prefer(50),
            OnMatch::Continue,
        ),
    );
    assert(rules.deep_view() =~= wheel_rules(first@, second@));
    rules
}

/// The nodes of `dispute-wheel`.
pub open spec fn dispute_wheel_nodes() -> Map<Chars, NodeSpecView> {
    Map::empty()
        .insert("P"@, node_view(65000, "400.0"@, "60.0"@, Seq::empty(), Seq::empty()))
        .insert("A"@, node_view(65011, "120.0"@, "360.0"@, wheel_rules("B"@, "C"@), Seq::empty()))
        .insert("B"@, node_view(65012, "400.0"@, "360.0"@, wheel_rules("C"@, "A"@), Seq::empty()))
        .insert("C"@, node_view(65013, "680.0"@, "360.0"@, wheel_rules("A"@, "B"@), Seq::empty()))
}

/// The sessions of `dispute-wheel`.
pub open spec fn dispute_wheel_sessions() -> Seq<SessionView> {
    seq![
        sess_view("P-A"@, "P"@, "A"@, 1),
        sess_view("A-P"@, "A"@, "P"@, 1),
        sess_view("P-B"@, "P"@, "B"@, 1),
        sess_view("B-P"@, "B"@, "P"@, 1),
        sess_view("P-C"@, "P"@, "C"@, 1),
        sess_view("C-P"@, "C"@, "P"@, 1),
        sess_view("A-B"@, "A"@, "B"@, 3),
        sess_view("B-A"@, "B"@, "A"@, 1),
        sess_view("B-C"@, "B"@, "C"@, 1),
        sess_view("C-B"@, "C"@, "B"@, 1),
        sess_view("C-A"@, "C"@, "A"@, 1),
        sess_view("A-C"@, "A"@, "C"@, 1),
    ]
}

/// The scenario `dispute-wheel`.
pub open spec fn dispute_wheel_scenario() -> ScenarioInputView {
    ScenarioInputView {
        name: "dispute-wheel"@,
        description: "BAD_GADGET cyclic preferences: provable recurring-state oscillation, not a cap failure."@,
        nodes: dispute_wheel_nodes(),
        sessions: dispute_wheel_sessions(),
        announcements: seq![
            announcement_view("ann-wheel"@, "P"@, "198.51.100.0/24"@, 0, Seq::empty()),
        ],
        events: Seq::empty(),
        max_iterations: 100_000,
    }
}

fn build_dispute_wheel_nodes() -> (r: OrdMap<NodeId, NodeSpec>)
    ensures
        r@ == dispute_wheel_nodes(),
{
    let mut nodes: OrdMap<NodeId, NodeSpec> = OrdMap::new();
    nodes.insert("P".to_owned(), node(65000, "400.0", "60.0", no_rules(), no_rules()));
    nodes.insert(
        "A".to_owned(),
        node(65011, "120.0", "360.0", wheel_policy("B", "C"), no_rules()),
    );
    nodes.insert(
        "B".to_owned(),
        node(65012, "400.0", "360.0", wheel_policy("C", "A"), no_rules()),
    );
    nodes.insert(
        "C".to_owned(),
        node(65013, "680.0", "360.0", wheel_policy("A", "B"), no_rules()),
    );
    nodes
}

fn build_dispute_wheel_sessions() -> (r: Vec<Session>)
    ensures
        r.deep_view() == dispute_wheel_sessions(),
{
    let mut sessions: Vec<Session> = Vec::new();
    sessions.push(sess("P-A", "P", "A", 1));
    sessions.push(sess("A-P", "A", "P", 1));
    sessions.push(sess("P-B", "P", "B", 1));
    sessions.push(sess("B-P", "B", "P", 1));
    sessions.push(sess("P-C", "P", "C", 1));
    sessions.push(sess("C-P", "C", "P", 1));
    sessions.push(sess("A-B", "A", "B", 3));
    sessions.push(sess("B-A", "B", "A", 1));
    sessions.push(sess("B-C", "B", "C", 1));
    sessions.push(sess("C-B", "C", "B", 1));
    sessions.push(sess("C-A", "C", "A", 1));
    sessions.push(sess("A-C", "A", "C", 1));
    assert(sessions.deep_view() =~= dispute_wheel_sessions());
    sessions
}

/// BAD_GADGET / dispute-wheel oscillation.
///
/// Three customers A, B, C each have a direct eBGP session to provider P (AS 65000) and a
/// full eBGP mesh with each other. Every customer prefers routes learned from a particular
/// peer (lp=200) over its second peer (lp=90) and over its own direct provider route
/// (lp=50). This cyclic preference profile is the classic Griffin-Wilkie-Rexford
/// no-stable-solution gadget. The deterministic engine reaches a recurring global state and
/// reports `oscillation` with a state-signature proof (rather than failing on an iteration
/// cap).
///
/// The delay vector is part of the fingerprint: `A->B` is 3 ticks while the other peer
/// links are 1 tick.
pub fn dispute_wheel() -> (r: ScenarioInput)
    ensures
        r@ == dispute_wheel_scenario(),
        runnable(r@),
{
    let mut announcements: Vec<Announcement> = Vec::new();
    announcements.push(announcement("ann-wheel", "P", "198.51.100.0/24", 0, no_strings()));
    assert(announcements.deep_view() =~= dispute_wheel_scenario().announcements);
    let events: Vec<EventSpec> = Vec::new();
    assert(events.deep_view() =~= dispute_wheel_scenario().events);
    let r = ScenarioInput {
        name: "dispute-wheel".to_owned(),
        description: "BAD_GADGET cyclic preferences: provable recurring-state oscillation, not a cap failure.".to_owned(),
        nodes: build_dispute_wheel_nodes(),
        sessions: build_dispute_wheel_sessions(),
        announcements,
        events,
        max_iterations: 100_000,
    };
    proof {
        assert(r@ =~= dispute_wheel_scenario());
        lemma_complete_runs(r@);
    }
    r
}

// ---------- all ----------

/// The built-in scenarios.
pub open spec fn all_scenarios() -> Seq<ScenarioInputView> {
    seq![
        basic_preferences_scenario(),
        med_community_rewrite_scenario(),
        as_path_loop_scenario(),
        equal_paths_scenario(),
        dispute_wheel_scenario(),
    ]
}

/// Builds all built-in scenarios, in the order in which a new store is seeded with them.
pub fn all() -> (r: Vec<ScenarioInput>)
    ensures
        r.deep_view() == all_scenarios(),
        forall|i: int| 0 <= i < r@.len() ==> runnable((#[trigger] r@[i])@),
{
    let mut out: Vec<ScenarioInput> = Vec::new();
    out.push(basic_preferences());
    out.push(med_community_rewrite());
    out.push(as_path_loop());
    out.push(equal_paths());
    out.push(dispute_wheel());
    assert(out.deep_view() =~= all_scenarios());
    out
}

/// The built-in scenario of a name or a short name.
pub open spec fn named(name: Chars) -> Option<ScenarioInputView> {
    if name == "basic"@ || name == "basic-preferences"@ {
        Some(basic_preferences_scenario())
    } else if name == "med"@ || name == "med-community-rewrite"@ {
        Some(med_community_rewrite_scenario())
    } else if name == "loop"@ || name == "as-path-loop"@ {
        Some(as_path_loop_scenario())
    } else if name == "equal"@ || name == "equal-paths"@ {
        Some(equal_paths_scenario())
    } else if name == "wheel"@ || name == "dispute-wheel"@ {
        Some(dispute_wheel_scenario())
    } else {
        None
    }
}

/// Finds a built-in scenario by its name or its short name.
pub fn by_name(name: &str) -> (r: Option<ScenarioInput>)
    ensures
        r.deep_view() == named(name@),
        r matches Some(input) ==> runnable(input@),
{
    if str_eq(name, "basic") || str_eq(name, "basic-preferences") {
        Some(basic_preferences())
    } else if str_eq(name, "med") || str_eq(name, "med-community-rewrite") {
        Some(med_community_rewrite())
    } else if str_eq(name, "loop") || str_eq(name, "as-path-loop") {
        Some(as_path_loop())
    } else if str_eq(name, "equal") || str_eq(name, "equal-paths") {
        Some(equal_paths())
    } else if str_eq(name, "wheel") || str_eq(name, "dispute-wheel") {
        Some(dispute_wheel())
    } else {
        None
    }
}

} // verus!
