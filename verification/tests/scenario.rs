use bgp_lab::fixtures;
use bgp_lab::model::{
    Action, Direction, EditSet, EventSpec, Match, OnMatch, Rule, RuleEdit, RuleRef,
};
use bgp_lab::scenario::{branch, concurrent_diff, DiffOp};

fn rule(id: &str, lp: i64) -> Rule {
    Rule {
        id: id.into(),
        description: "".into(),
        when: Match::default(),
        do_: Action { set_local_pref: Some(lp), ..Default::default() },
        on_match: OnMatch::Continue,
    }
}

fn upsert(node: &str, rule: Rule) -> RuleEdit {
    RuleEdit { node: node.into(), direction: Direction::Import, rule, upsert: true }
}

fn import_of(input: &bgp_lab::model::ScenarioInput, node: &str) -> Vec<Rule> {
    input.nodes.get(&node.to_string()).unwrap().policy.import.clone()
}

#[test]
fn branch_does_not_overwrite_base() {
    let base = fixtures::basic_preferences();
    let before = import_of(&base, "R2").len();
    let edits = EditSet {
        rules: vec![RuleEdit {
            node: "R2".into(),
            direction: Direction::Import,
            rule: Rule {
                id: "extra".into(),
                description: "".into(),
                when: Match::default(),
                do_: Action { set_local_pref: Some(50), ..Default::default() },
                on_match: OnMatch::Continue,
            },
            upsert: true,
        }],
        removed_rule_ids: vec![],
        withdraw: vec![],
        restart: vec![],
        restart_tick: None,
    };
    let preview = branch(&base, &edits, "child".into()).unwrap();
    assert_eq!(import_of(&base, "R2").len(), before);
    assert_eq!(import_of(&preview.scenario, "R2").len(), before + 1);
}

fn edit_set() -> EditSet {
    EditSet {
        rules: vec![RuleEdit {
            node: "R3".into(),
            direction: Direction::Import,
            rule: Rule {
                id: "prefer-community".into(),
                description: "lowered".into(),
                when: Match { community_any: vec!["65002:exit-A".into()], ..Default::default() },
                do_: Action { set_local_pref: Some(120), ..Default::default() },
                on_match: OnMatch::Continue,
            },
            upsert: false,
        }],
        removed_rule_ids: vec![],
        withdraw: vec![],
        restart: vec![],
        restart_tick: None,
    }
}

#[test]
fn preview_reports_affected_diffs_without_overwriting() {
    let base = fixtures::basic_preferences();
    let preview = branch(&base, &edit_set(), "trial".into()).unwrap();
    assert!(preview.diffs.iter().any(|d| d.node == "R3"));
    assert_ne!(import_of(&base, "R3")[0].do_.set_local_pref, Some(120));
    let run = bgp_lab::engine::simulate(&preview.scenario);
    assert_eq!(run.status, bgp_lab::engine::RunStatus::Stable);
}

#[test]
fn replaced_rule_is_reported_with_both_forms() {
    let base = fixtures::basic_preferences();
    let preview = branch(&base, &edit_set(), "trial".into()).unwrap();
    assert_eq!(preview.scenario.name, "trial");
    assert_eq!(preview.diffs.len(), 1);
    let d = &preview.diffs[0];
    assert_eq!(d.op, DiffOp::RuleChanged);
    assert_eq!(d.direction, "import");
    assert_eq!(d.detail, "rule prefer-community on R3 import replaced");
    assert_eq!(d.before.as_ref().unwrap().do_.set_local_pref, Some(250));
    assert_eq!(d.after.as_ref().unwrap().do_.set_local_pref, Some(120));
    assert_eq!(preview.affected_nodes, vec!["R3".to_string()]);
    assert!(preview.affected_prefixes.is_empty());
}

#[test]
fn same_rule_is_no_difference_and_other_outcome_is_reordered() {
    let base = fixtures::basic_preferences();
    let mut same = import_of(&base, "R3")[0].clone();
    let edits = EditSet { rules: vec![upsert("R3", same.clone())], ..Default::default() };
    let preview = branch(&base, &edits, "x".into()).unwrap();
    assert!(preview.diffs.is_empty());
    assert!(preview.affected_nodes.is_empty());
    same.on_match = OnMatch::Accept;
    let edits = EditSet { rules: vec![upsert("R3", same)], ..Default::default() };
    let preview = branch(&base, &edits, "x".into()).unwrap();
    assert_eq!(preview.diffs[0].op, DiffOp::RuleReordered);
}

#[test]
fn errors_name_what_is_missing() {
    let base = fixtures::basic_preferences();
    let mut e = upsert("R9", rule("a", 1));
    let edits = EditSet { rules: vec![e.clone()], ..Default::default() };
    assert_eq!(branch(&base, &edits, "x".into()).unwrap_err(), "unknown node R9");
    e.node = "R2".into();
    e.upsert = false;
    let edits = EditSet { rules: vec![e], ..Default::default() };
    assert_eq!(
        branch(&base, &edits, "x".into()).unwrap_err(),
        "rule a not found on R2 import and upsert=false"
    );
    let edits = EditSet {
        removed_rule_ids: vec![RuleRef {
            node: "R9".into(),
            direction: Direction::Export,
            rule: "a".into(),
        }],
        ..Default::default()
    };
    assert_eq!(branch(&base, &edits, "x".into()).unwrap_err(), "unknown node R9");
    let edits = EditSet { restart: vec!["R9".into()], ..Default::default() };
    assert_eq!(branch(&base, &edits, "x".into()).unwrap_err(), "unknown node R9 for restart");
}

#[test]
fn rules_are_removed_and_missing_ones_passed_over() {
    let base = fixtures::basic_preferences();
    let gone = |rule: &str| RuleRef {
        node: "R3".into(),
        direction: Direction::Import,
        rule: rule.into(),
    };
    let edits = EditSet {
        removed_rule_ids: vec![gone("nope"), gone("prefer-community")],
        ..Default::default()
    };
    let preview = branch(&base, &edits, "x".into()).unwrap();
    assert_eq!(preview.diffs.len(), 1);
    assert_eq!(preview.diffs[0].op, DiffOp::RuleRemoved);
    assert_eq!(preview.diffs[0].detail, "rule prefer-community removed from R3 import");
    assert!(preview.diffs[0].before.is_some());
    assert_eq!(preview.diffs[0].after, None);
    assert_eq!(import_of(&preview.scenario, "R3").len(), 1);
}

#[test]
fn injected_events_follow_the_base_timeline() {
    let base = fixtures::basic_preferences();
    let edits = EditSet {
        withdraw: vec!["ann-prefix-a".into(), "ann-prefix-a".into(), "unknown".into()],
        restart: vec!["R3".into()],
        ..Default::default()
    };
    let preview = branch(&base, &edits, "x".into()).unwrap();
    assert_eq!(
        preview.scenario.events,
        vec![
            base.events[0].clone(),
            EventSpec::Withdraw {
                id: "withdraw-ann-prefix-a".into(),
                announcement: "ann-prefix-a".into(),
                tick: 41,
            },
            EventSpec::Restart { id: "restart-R3-2".into(), node: "R3".into(), tick: 42 },
        ]
    );
    assert_eq!(preview.diffs.len(), 2);
    assert_eq!(
        preview.diffs[0].detail,
        "announcement ann-prefix-a (10.10.0.0/16) withdrawn at tick 41"
    );
    assert_eq!(preview.diffs[0].node, "R1");
    assert_eq!(preview.diffs[0].direction, "event");
    assert_eq!(preview.diffs[1].detail, "neighbor R3 restart injected at tick 42");
    assert_eq!(preview.affected_nodes, vec!["R1".to_string(), "R3".to_string()]);
}

#[test]
fn restart_tick_counts_from_the_end_of_the_base() {
    let base = fixtures::basic_preferences();
    let edits = EditSet {
        withdraw: vec!["ann-prefix-a".into()],
        restart: vec!["R3".into()],
        restart_tick: Some(25),
        ..Default::default()
    };
    let preview = branch(&base, &edits, "x".into()).unwrap();
    assert_eq!(preview.scenario.events[1].tick(), 65);
    assert_eq!(preview.scenario.events[2].tick(), 65);
    assert_eq!(preview.scenario.events[2].id(), "restart-R3-2");
    let quiet = fixtures::equal_paths();
    let edits =
        EditSet { restart: vec!["G".into()], restart_tick: Some(25), ..Default::default() };
    let preview = branch(&quiet, &edits, "x".into()).unwrap();
    assert_eq!(preview.scenario.events[0].tick(), 25);
}

#[test]
fn no_edits_give_the_base_under_another_name() {
    let base = fixtures::dispute_wheel();
    let preview = branch(&base, &EditSet::default(), "copy".into()).unwrap();
    assert!(preview.diffs.is_empty());
    assert_eq!(preview.scenario.name, "copy");
    assert_eq!(preview.scenario.sessions, base.sessions);
    assert_eq!(
        bgp_lab::engine::simulate(&preview.scenario).trace_fingerprint,
        bgp_lab::engine::simulate(&base).trace_fingerprint
    );
}

#[test]
fn concurrent_drafts_report_conflicts_per_rule() {
    let base = fixtures::basic_preferences();
    let draft = |rules: Vec<RuleEdit>| {
        branch(&base, &EditSet { rules, ..Default::default() }, "d".into()).unwrap().scenario
    };
    let left = draft(vec![
        upsert("R2", rule("trust-r1", 1)),
        upsert("R3", rule("new", 5)),
        upsert("R4", rule("left-only", 9)),
    ]);
    let right = draft(vec![
        upsert("R2", rule("trust-r1", 2)),
        upsert("R3", rule("new", 5)),
        upsert("R1", rule("right-only", 9)),
    ]);
    let diffs = concurrent_diff(&base, &left, &right);
    let seen: Vec<(String, String, bool, String)> = diffs
        .iter()
        .map(|d| (d.rule.node.clone(), d.rule.rule.clone(), d.conflict, d.detail.clone()))
        .collect();
    let expect = |n: &str, r: &str, c: bool, t: &str| {
        (n.to_string(), r.to_string(), c, t.to_string())
    };
    assert_eq!(
        seen,
        vec![
            expect("R1", "right-only", false, "only right draft changed this rule"),
            expect("R2", "trust-r1", true, "both drafts changed this rule differently"),
            expect("R3", "new", false, "both drafts changed this rule identically"),
            expect("R4", "left-only", false, "only left draft changed this rule"),
        ]
    );
    assert_eq!(diffs[0].left, None);
    assert_eq!(diffs[0].rule.direction, "import");
    assert!(concurrent_diff(&base, &base, &base).is_empty());
    assert!(concurrent_diff(&base, &left, &left).iter().all(|d| !d.conflict));
}
