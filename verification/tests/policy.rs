use bgp_lab::model::{Action, Cmp, Decision, Match, OnMatch, Provenance, Route, Rule};
use bgp_lab::policy::{apply_action, evaluate, evaluate_match, glob_match, RuleOutcome, Verdict};

fn base_route() -> Route {
    Route {
        prefix: "10.0.0.0/24".into(),
        as_path: vec![64500],
        local_pref: 100,
        med: Some(10),
        communities: vec!["64500:10".into()],
        provenance: Provenance::EBgp,
        ingress_session: Some("s".into()),
        first_as: None,
    }
}

fn rule(id: &str, when: Match, do_: Action, on_match: OnMatch) -> Rule {
    Rule { id: id.into(), description: "".into(), when, do_, on_match }
}

#[test]
fn rewrite_visible_to_later_conditions() {
    let rules = vec![
        Rule {
            id: "set".into(),
            description: "".into(),
            when: Match { prefix: Some("10.0.0.0/24".into()), ..Default::default() },
            do_: Action { set_local_pref: Some(300), ..Default::default() },
            on_match: OnMatch::Continue,
        },
        Rule {
            id: "see-new".into(),
            description: "".into(),
            when: Match {
                local_pref: Some(300),
                local_pref_cmp: Some(Cmp::Eq),
                ..Default::default()
            },
            do_: Action::default(),
            on_match: OnMatch::Accept,
        },
    ];
    let (v, route, _) = evaluate(&rules, &base_route(), "peer-x", Decision::Reject);
    assert_eq!(v.decision, Verdict::Accept);
    assert_eq!(v.defaulted, false);
    assert_eq!(route.local_pref, 300);
    assert_eq!(v.trace[1].outcome, RuleOutcome::HitAccept);
}

#[test]
fn miss_continues_to_default_reject() {
    let rules = vec![Rule {
        id: "other".into(),
        description: "".into(),
        when: Match { prefix: Some("9.9.9.9/32".into()), ..Default::default() },
        do_: Action::default(),
        on_match: OnMatch::Accept,
    }];
    let (v, _, _) = evaluate(&rules, &base_route(), "peer-x", Decision::Reject);
    assert_eq!(v.decision, Verdict::Reject);
    assert!(v.defaulted);
    assert_eq!(v.trace[0].outcome, RuleOutcome::Miss);
}

#[test]
fn terminate_reject_short_circuits() {
    let rules = vec![
        Rule {
            id: "deny".into(),
            description: "".into(),
            when: Match { community_any: vec!["64500:10".into()], ..Default::default() },
            do_: Action { add_community: Some("x".into()), ..Default::default() },
            on_match: OnMatch::Reject,
        },
        Rule {
            id: "unreachable".into(),
            description: "".into(),
            when: Match::default(),
            do_: Action::default(),
            on_match: OnMatch::Accept,
        },
    ];
    let (v, route, _) = evaluate(&rules, &base_route(), "peer-x", Decision::Accept);
    assert_eq!(v.decision, Verdict::Reject);
    assert_eq!(v.trace.len(), 1, "later rule must never be evaluated");
    assert!(route.communities.contains(&"x".to_string()));
}

#[test]
fn glob_patterns() {
    assert!(glob_match("10.*", "10.0.0.0/24"));
    assert!(glob_match("*", ""));
    assert!(!glob_match("?", ""));
    assert!(glob_match("a?c", "abc"));
    assert!(glob_match("a?c", "aéc"));
    assert!(glob_match("*0*/2?", "10.0.0.0/24"));
    assert!(!glob_match("10.0.0.0/8", "10.0.0.0/24"));
    assert!(glob_match("10.0.0.0/8", "10.0.0.0/8"));
}

#[test]
fn default_reasons() {
    let (a, _, n) = evaluate(&vec![], &base_route(), "p", Decision::Accept);
    assert_eq!(a.decision, Verdict::Accept);
    assert_eq!(a.reason, "no terminating rule matched: policy default accept");
    assert!(a.trace.is_empty());
    assert_eq!(n, 0);
    let (r, _, _) = evaluate(&vec![], &base_route(), "p", Decision::Reject);
    assert_eq!(r.reason, "no terminating rule matched: policy default reject");
}

#[test]
fn every_condition_says_why_it_fails() {
    let route = base_route();
    let fails = |m: Match| {
        let (ok, facts) = evaluate_match(&m, &route, "R1");
        assert!(!ok);
        assert_eq!(facts.len(), 1);
        facts[0].clone()
    };
    assert_eq!(fails(Match { peer: Some("R2".into()), ..Default::default() }), "peer R1 != R2");
    assert_eq!(
        fails(Match { prefix: Some("9/8".into()), ..Default::default() }),
        "prefix 10.0.0.0/24 failed Eq 9/8"
    );
    assert_eq!(
        fails(Match {
            as_path_len: Some(2),
            as_path_len_cmp: Some(Cmp::Gte),
            ..Default::default()
        }),
        "as_path_len 1 failed Gte 2"
    );
    assert_eq!(
        fails(Match { as_path_contains: vec![64500, 7, 8], ..Default::default() }),
        "as_path missing [7, 8]"
    );
    assert_eq!(
        fails(Match {
            local_pref: Some(-5),
            local_pref_cmp: Some(Cmp::Lte),
            ..Default::default()
        }),
        "local_pref 100 failed Lte -5"
    );
    assert_eq!(
        fails(Match { med: Some(10), med_cmp: Some(Cmp::Ne), ..Default::default() }),
        "med 10 failed Ne 10"
    );
    assert_eq!(
        fails(Match { community_any: vec!["a\"b".into()], ..Default::default() }),
        "communities [\"64500:10\"] failed In [\"a\\\"b\"]"
    );
}

#[test]
fn conditions_that_hold_are_listed_in_order() {
    let m = Match {
        peer: Some("R1".into()),
        prefix: Some("10.*".into()),
        prefix_cmp: Some(Cmp::Matches),
        as_path_len: Some(1),
        as_path_contains: vec![64500],
        local_pref: Some(50),
        local_pref_cmp: Some(Cmp::Gte),
        med: Some(10),
        community_any: vec!["no:such".into()],
        community_any_cmp: Some(Cmp::NotIn),
        ..Default::default()
    };
    let (ok, facts) = evaluate_match(&m, &base_route(), "R1");
    assert!(ok);
    assert_eq!(
        facts,
        vec![
            "peer R1".to_string(),
            "prefix 10.0.0.0/24 Matches 10.*".to_string(),
            "as_path_len 1 Eq 1".to_string(),
            "as_path contains [64500]".to_string(),
            "local_pref 100 Gte 50".to_string(),
            "med 10 Eq 10".to_string(),
            "community NotIn [\"no:such\"] [\"64500:10\"]".to_string(),
        ]
    );
}

#[test]
fn missing_med_counts_as_zero() {
    let mut route = base_route();
    route.med = None;
    let m = Match { med: Some(0), ..Default::default() };
    assert!(evaluate_match(&m, &route, "p").0);
}

#[test]
fn huge_path_length_is_never_reached() {
    let m = Match {
        as_path_len: Some(usize::MAX),
        as_path_len_cmp: Some(Cmp::Gte),
        ..Default::default()
    };
    assert!(!evaluate_match(&m, &base_route(), "p").0);
}

#[test]
fn actions_say_what_changed() {
    let mut route = base_route();
    let a = Action {
        set_local_pref: Some(-7),
        set_med: Some(3),
        add_community: Some("n:1".into()),
        remove_communities: vec!["64500:10".into()],
        as_path_prepend: Some(2),
    };
    let changes = apply_action(&mut route, &a);
    assert_eq!(
        changes,
        vec![
            "local_pref 100 -> -7".to_string(),
            "med Some(10) -> 3".to_string(),
            "add community n:1".to_string(),
            "remove communities [\"64500:10\"]".to_string(),
            "as_path_prepend +2 (applied at send boundary)".to_string(),
        ]
    );
    assert_eq!(route.local_pref, -7);
    assert_eq!(route.med, Some(3));
    assert_eq!(route.communities, vec!["n:1".to_string()]);
    assert_eq!(route.as_path, vec![64500]);
    let again = apply_action(&mut route, &a);
    assert_eq!(again.len(), 4, "nothing is left to remove");
    assert_eq!(route.communities, vec!["n:1".to_string()]);
}

#[test]
fn prepends_add_up_and_saturate() {
    let more = |n: u32| {
        rule(
            "p",
            Match::default(),
            Action { as_path_prepend: Some(n), ..Default::default() },
            OnMatch::Continue,
        )
    };
    let (_, _, n) = evaluate(&vec![more(2), more(3)], &base_route(), "p", Decision::Accept);
    assert_eq!(n, 5);
    let (_, _, n) =
        evaluate(&vec![more(u32::MAX), more(3)], &base_route(), "p", Decision::Accept);
    assert_eq!(n, u32::MAX);
}

#[test]
fn trace_entries_carry_detail_and_snapshot() {
    let rules = vec![
        rule("a", Match { peer: Some("x".into()), ..Default::default() }, Action::default(), OnMatch::Reject),
        rule(
            "b",
            Match { peer: Some("p".into()), ..Default::default() },
            Action { set_med: Some(1), ..Default::default() },
            OnMatch::Accept,
        ),
    ];
    let (v, route, _) = evaluate(&rules, &base_route(), "p", Decision::Reject);
    assert_eq!(v.trace.len(), 2);
    assert_eq!(v.trace[0].index, 0);
    assert_eq!(v.trace[0].rule, "a");
    assert_eq!(v.trace[0].detail, "peer p != x");
    assert_eq!(v.trace[0].after, None);
    assert_eq!(v.trace[1].detail, "peer p | med Some(10) -> 1");
    assert_eq!(v.trace[1].after, Some(route));
    assert_eq!(v.reason, "rule b terminated accept");
}
