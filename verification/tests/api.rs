use bgp_lab::api::{
    diff_base, draft_id, identify, impact, intermediate_transitions, path_label, plan_commit,
    plan_compute, plan_create, plan_preview, status_label, validate, ComputePlan,
};
use bgp_lab::engine::{simulate, RunStatus};
use bgp_lab::fixtures;
use bgp_lab::model::{
    Action, Direction, EditSet, EventSpec, Match, OnMatch, Provenance, Route, Rule, RuleEdit,
};
use bgp_lab::store::ScenarioRow;

fn block_r1() -> EditSet {
    EditSet {
        rules: vec![RuleEdit {
            node: "R2".into(),
            direction: Direction::Import,
            rule: Rule {
                id: "block-r1".into(),
                description: "".into(),
                when: Match { peer: Some("R1".into()), ..Default::default() },
                do_: Action::default(),
                on_match: OnMatch::Reject,
            },
            upsert: true,
        }],
        ..Default::default()
    }
}

fn row(id: &str, parent: Option<&str>) -> Option<ScenarioRow> {
    Some(ScenarioRow {
        id: id.into(),
        name: "".into(),
        parent_id: parent.map(|p| p.to_string()),
        input_json: "".into(),
        input_fingerprint: "".into(),
        created_at: "".into(),
    })
}

#[test]
fn labels_of_routes() {
    let r = Route {
        prefix: "10/8".into(),
        as_path: vec![3, 4],
        local_pref: 70,
        med: None,
        communities: vec!["a".into(), "b".into()],
        provenance: Provenance::IBgp,
        ingress_session: None,
        first_as: None,
    };
    assert_eq!(
        path_label(Some(&r)).unwrap(),
        "[lp=70, med=0, path=3 4, comm=a,b]"
    );
    assert_eq!(path_label(None), None);
}

#[test]
fn no_change_has_no_impact() {
    let r = simulate(&fixtures::equal_paths());
    let i = impact(&r, &r);
    assert!(i.affected_nodes.is_empty());
    assert!(i.affected_prefixes.is_empty());
    assert!(i.best_path_diffs.is_empty());
    assert!(i.publication_diffs.is_empty());
    assert!(i.intermediate_diffs.is_empty());
    assert!(!i.trace_changed);
}

#[test]
fn blocked_route_shows_in_all_parts_of_the_impact() {
    let mut base = fixtures::basic_preferences();
    base.events = vec![];
    let plan = plan_preview(&base, &block_r1(), None, None).unwrap();
    assert_eq!(plan.preview.scenario.name, "basic-preferences-branch");
    let i = &plan.impact;
    assert!(i.trace_changed);
    assert_eq!(i.affected_prefixes, vec!["10.10.0.0/16".to_string()]);
    let lost: Vec<&str> = i.best_path_diffs.iter().map(|d| d.node.as_str()).collect();
    assert_eq!(lost, vec!["R2", "R3", "R4"]);
    assert!(i.best_path_diffs.iter().all(|d| d.after.is_none() && d.before.is_some()));
    assert_eq!(
        i.best_path_diffs[0].before.as_deref(),
        Some("[lp=300, med=0, path=65001, comm=65001:origin,65002:trusted]")
    );
    assert!(i.publication_diffs.iter().all(|d| d.change == "withdrawn" && d.after.is_none()));
    assert!(i
        .publication_diffs
        .iter()
        .any(|d| d.session == "R2-R3" && d.from == "R2" && d.to == "R3"));
    assert!(i.intermediate_diffs.iter().all(|d| d.prefix == "10.10.0.0/16"));
    for d in i.best_path_diffs.iter() {
        assert!(i.affected_nodes.contains(&d.node));
    }
    let back = impact(&plan.result, &simulate(&base));
    assert!(back.publication_diffs.iter().all(|d| d.change == "new"));
}

#[test]
fn restart_shows_in_the_intermediate_steps() {
    let base = fixtures::equal_paths();
    let edits = EditSet { restart: vec!["E".into()], ..Default::default() };
    let plan = plan_preview(&base, &edits, Some("r".into()), Some(simulate(&base))).unwrap();
    assert!(plan.impact.best_path_diffs.is_empty());
    assert!(plan.impact.trace_changed);
    let e = plan.impact.intermediate_diffs.iter().find(|d| d.node == "E").unwrap();
    assert!(e.before.as_ref().unwrap().ends_with(" convergence step(s)"));
    assert_ne!(e.before, e.after);
}

#[test]
fn transitions_count_steps_and_restarts() {
    let mut sc = fixtures::equal_paths();
    let plain = intermediate_transitions(&simulate(&sc));
    let key = ("E".to_string(), "203.0.113.0/24".to_string());
    let before = *plain.get(&key).unwrap();
    sc.events = vec![EventSpec::Restart { id: "r".into(), node: "E".into(), tick: 50 }];
    let run = simulate(&sc);
    let after = *intermediate_transitions(&run).get(&key).unwrap();
    assert!(after > before);
}

#[test]
fn faults_are_named_one_by_one() {
    let ok = || fixtures::basic_preferences();
    assert!(validate(&ok()).is_ok());
    let mut sc = ok();
    sc.sessions[0].local = "Q".into();
    assert_eq!(
        validate(&sc).unwrap_err(),
        "session R1-R2 references unknown local node Q"
    );
    let mut sc = ok();
    sc.sessions[1].remote = "Q".into();
    sc.announcements[0].node = "Q".into();
    assert_eq!(
        validate(&sc).unwrap_err(),
        "session R2-R1 references unknown remote node Q",
        "sessions come first"
    );
    let mut sc = ok();
    sc.sessions[2].delay = 0;
    assert_eq!(validate(&sc).unwrap_err(), "session R2-R3 delay must be >= 1 tick");
    let mut sc = ok();
    sc.announcements[0].node = "Q".into();
    assert_eq!(
        validate(&sc).unwrap_err(),
        "announcement ann-prefix-a on unknown node Q"
    );
    let mut sc = ok();
    sc.announcements.clear();
    assert_eq!(
        validate(&sc).unwrap_err(),
        "event withdraws unknown announcement ann-prefix-a"
    );
    let mut sc = ok();
    sc.events = vec![EventSpec::Restart { id: "r".into(), node: "Q".into(), tick: 1 }];
    assert_eq!(validate(&sc).unwrap_err(), "restart on unknown node Q");
}

#[test]
fn identity_folds_the_engine_version() {
    let i = identify(&fixtures::equal_paths());
    assert_eq!(
        i.fingerprint,
        "c1fc6613d0f85222babb8d9832a8d5ee2db997cd5fd224d4b9be9e620620ef9e"
    );
    assert_eq!(i.id, "c1fc6613d0f85222");
    assert!(i.json.starts_with("{\"announcements\":[{\"communities\":[\"shared:peer\"],"));
    assert!(i.json.contains("\"x\":120.0,\"y\":110.0"));
    assert!(!i.json.contains("engine_version"));
    let mut other = fixtures::equal_paths();
    other.sessions[0].delay = 2;
    assert_ne!(identify(&other).id, i.id, "delays are part of the identity");
}

#[test]
fn invalid_scenarios_are_not_created() {
    assert_eq!(
        plan_create(&fixtures::equal_paths()).unwrap(),
        identify(&fixtures::equal_paths())
    );
    let mut sc = fixtures::equal_paths();
    sc.announcements[0].node = "Q".into();
    let refusal = plan_create(&sc).unwrap_err();
    assert_eq!(refusal.status, 400);
    assert_eq!(refusal.message, "announcement ann-e on unknown node Q");
}

#[test]
fn stable_and_proven_branches_are_committed() {
    let plan = plan_commit(&fixtures::equal_paths(), &EditSet::default(), "c".into()).unwrap();
    assert_eq!(plan.result.status, RunStatus::Stable);
    assert_eq!(plan.preview.scenario.name, "c");
    assert_eq!(plan.identity, identify(&plan.preview.scenario));
    let plan = plan_commit(&fixtures::dispute_wheel(), &EditSet::default(), "c".into()).unwrap();
    assert_eq!(plan.result.status, RunStatus::Oscillation);
    assert!(plan.result.cycle.is_some());
}

#[test]
fn inconclusive_branches_are_refused() {
    let mut sc = fixtures::dispute_wheel();
    sc.max_iterations = 3;
    let refusal = plan_commit(&sc, &EditSet::default(), "c".into()).unwrap_err();
    assert_eq!(refusal.status, 409);
    assert_eq!(
        refusal.message,
        "refusing to publish branch: simulation is inconclusive (cap hit, no proof)"
    );
    let plan = plan_preview(&sc, &EditSet::default(), Some("c".into()), None).unwrap();
    assert_eq!(plan.result.status, RunStatus::Inconclusive, "a preview still answers");
}

#[test]
fn bad_edits_are_refused_with_their_reason() {
    let edits = EditSet { restart: vec!["Q".into()], ..Default::default() };
    let refusal = plan_commit(&fixtures::equal_paths(), &edits, "c".into()).unwrap_err();
    assert_eq!(refusal.status, 400);
    assert_eq!(refusal.message, "unknown node Q for restart");
    assert_eq!(
        plan_preview(&fixtures::equal_paths(), &edits, None, None).unwrap_err(),
        refusal
    );
}

#[test]
fn commit_publishes_what_the_preview_showed() {
    let base = fixtures::basic_preferences();
    let shown = plan_preview(&base, &block_r1(), Some("b".into()), None).unwrap();
    let done = plan_commit(&base, &block_r1(), "b".into()).unwrap();
    assert_eq!(shown.result.trace_fingerprint, done.result.trace_fingerprint);
    assert_eq!(identify(&shown.preview.scenario), done.identity);
}

#[test]
fn computations_are_reused_only_with_their_run() {
    assert_eq!(plan_compute(Some("t".into()), true), ComputePlan::Reuse("t".into()));
    assert_eq!(plan_compute(Some("t".into()), false), ComputePlan::Simulate);
    assert_eq!(plan_compute(None, true), ComputePlan::Simulate);
}

#[test]
fn drafts_are_compared_against_their_common_parent() {
    let left = "l".to_string();
    assert_eq!(diff_base(&left, &row("l", Some("p")), &row("r", Some("p"))), "p");
    assert_eq!(diff_base(&left, &row("l", Some("p")), &row("r", Some("q"))), "l");
    assert_eq!(diff_base(&left, &row("l", None), &row("r", None)), "l");
    assert_eq!(diff_base(&left, &None, &row("r", Some("p"))), "l");
}

#[test]
fn draft_ids_have_no_spaces() {
    assert_eq!(draft_id("abc", "my first draft"), "abc:my-first-draft");
    assert_eq!(draft_id("abc", ""), "abc:");
}

#[test]
fn status_names() {
    assert_eq!(status_label(RunStatus::Stable), "stable");
    assert_eq!(status_label(RunStatus::Oscillation), "oscillation");
    assert_eq!(status_label(RunStatus::Inconclusive), "inconclusive");
}
