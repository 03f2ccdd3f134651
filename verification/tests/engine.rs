use bgp_lab::engine::{simulate, Engine, RunStatus, StepKind};
use bgp_lab::fixtures::{
    as_path_loop, basic_preferences, dispute_wheel, equal_paths, med_community_rewrite,
};
use bgp_lab::model::{
    Action, Announcement, EventSpec, Match, NodeSpec, OnMatch, Policy, Provenance, Route, Rule,
    ScenarioInput, Session, SessionKind,
};
use bgp_lab::ordmap::OrdMap;
use bgp_lab::queue::{pop, schedule, MsgKind, Scheduled};
use bgp_lab::rib::fresh_node;
use bgp_lab::signature::state_signature;
use bgp_lab::step::{dispatch, State};

#[test]
fn basic_reaches_stable_after_withdraw() {
    let r = simulate(&basic_preferences());
    assert_eq!(
        r.status,
        RunStatus::Stable,
        "{}",
        r.inconclusive_reason.unwrap_or_default()
    );
    // withdrawal event leaves no best route for the originated prefix anywhere
    let still: Vec<_> = r.best.iter().filter(|b| b.prefix == "10.10.0.0/16").collect();
    assert!(
        still.is_empty(),
        "prefix should be withdrawn everywhere, got {} entries",
        still.len()
    );
}

#[test]
fn deterministic_trace_fingerprint_replays_identically() {
    let a = simulate(&med_community_rewrite());
    let b = simulate(&med_community_rewrite());
    assert_eq!(a.trace_fingerprint, b.trace_fingerprint);
    assert_eq!(a.steps.len(), b.steps.len());
}

#[test]
fn loop_rejection_has_explicit_evidence() {
    let r = simulate(&as_path_loop());
    let ev: Vec<_> = r
        .steps
        .iter()
        .filter_map(|s| s.receive.as_ref())
        .filter(|rec| rec.loop_evidence.is_some() && !rec.accepted)
        .collect();
    assert!(
        !ev.is_empty(),
        "expected at least one import-side loop rejection with evidence"
    );
    let export_ev: Vec<_> = r
        .steps
        .iter()
        .flat_map(|s| s.exports.clone())
        .filter(|e| e.loop_evidence.is_some())
        .collect();
    // either import or export side must have explicit evidence in this poisoning setup
    assert!(ev.len() + export_ev.len() > 0);
}

#[test]
fn equal_paths_have_stable_winner_and_equal_peer() {
    let r = simulate(&equal_paths());
    assert_eq!(r.status, RunStatus::Stable);
    let g = r
        .best
        .iter()
        .find(|b| b.node == "G" && b.prefix == "203.0.113.0/24")
        .expect("G selected the prefix");
    let peer = g.equal_peer.as_deref();
    assert!(
        peer == Some("E") || peer == Some("F"),
        "expected equal-best peer E/F, got {peer:?}"
    );
    assert!(peer != Some("G"));
}

#[test]
fn dispute_wheel_has_verifiable_cycle_proof() {
    let r = simulate(&dispute_wheel());
    assert_eq!(r.status, RunStatus::Oscillation);
    let c = r.cycle.as_ref().expect("cycle proof must be present");
    assert!(c.recurred_at_step > c.first_seen_at_step);
    assert!(!c.state_signature.is_empty());
    assert!(c.involved_prefixes.contains(&"198.51.100.0/24".to_string()));
    // recurring-state proof, not a cap failure
    assert!(r.inconclusive_reason.is_none());
    assert!(r.messages_processed < dispute_wheel().max_iterations);
}

#[test]
fn iteration_cap_is_inconclusive_not_oscillation() {
    // Use the genuine oscillating gadget with a tiny cap: the cap must surface as
    // inconclusive rather than a false non-convergence claim.
    let mut sc = dispute_wheel();
    sc.max_iterations = 3;
    let r = simulate(&sc);
    assert_eq!(r.status, RunStatus::Inconclusive);
    assert!(r.cycle.is_none());
    assert!(r.inconclusive_reason.unwrap().contains("safety cap"));
}

#[test]
fn restart_clears_rib_and_reconverges_deterministically() {
    let mut sc = basic_preferences();
    // restart R2 before the manual withdrawal; result must be deterministic
    sc.events = vec![EventSpec::Restart {
        id: "restart-r2".into(),
        node: "R2".into(),
        tick: 10,
    }];
    let a = simulate(&sc);
    let b = simulate(&sc);
    assert_eq!(a.status, RunStatus::Stable);
    assert_eq!(a.trace_fingerprint, b.trace_fingerprint);
    let restart_steps: Vec<_> =
        a.steps.iter().filter(|s| matches!(s.kind, StepKind::Restart)).collect();
    assert_eq!(restart_steps.len(), 1);
}

#[test]
fn dispute_wheel_recurs_at_the_documented_steps() {
    let r = simulate(&dispute_wheel());
    let c = r.cycle.as_ref().unwrap();
    assert_eq!(c.first_seen_at_step, 10);
    assert_eq!(c.recurred_at_step, 26);
    assert_eq!(c.cycle_steps, (11..=26).collect::<Vec<usize>>());
    assert_eq!(c.state_signature, r.final_state_signature);
    assert_eq!(r.messages_processed, 26);
    assert_eq!(r.steps.len(), 26);
    assert_eq!(c.involved_nodes, ["A", "B", "C", "P"]);
}

#[test]
fn a_recurring_state_goes_round_again() {
    let sc = dispute_wheel();
    let mut state = State { nodes: OrdMap::new(), queue: vec![], steps: vec![] };
    for i in 0..sc.nodes.len() {
        state.nodes.insert(sc.nodes.key_at(i).clone(), fresh_node(sc.nodes.value_at(i)));
    }
    let ann = &sc.announcements[0];
    let mut route = Route::origin(ann.prefix.clone(), 65000);
    route.med = ann.med;
    schedule(
        &mut state.queue,
        Scheduled {
            tick: 0,
            kind: MsgKind::OriginInject,
            node: ann.node.clone(),
            session: None,
            prefix: Some(ann.prefix.clone()),
            route: Some(route),
            stale: false,
        },
    );
    let mut signatures = vec![];
    while signatures.len() < 60 {
        let m = pop(&mut state.queue).expect("the wheel never comes to rest");
        if !m.stale {
            dispatch(&mut state, &sc.sessions, m, signatures.len() + 1);
            signatures.push(state_signature(&state.nodes, &state.queue));
        }
    }
    let r = simulate(&sc);
    assert_eq!(signatures[25], r.final_state_signature);
    for k in 0..30 {
        assert_eq!(signatures[9 + k], signatures[25 + k], "{k} messages on");
    }
}

#[test]
fn cap_reason_is_exact() {
    let mut sc = dispute_wheel();
    sc.max_iterations = 3;
    let r = simulate(&sc);
    assert_eq!(r.messages_processed, 3);
    assert_eq!(
        r.inconclusive_reason.unwrap(),
        "safety cap of 3 messages reached without stability or a recurring-state proof; \
         this is NOT declared non-convergence"
    );
}

#[test]
fn larger_cap_keeps_the_verdict() {
    let mut sc = dispute_wheel();
    sc.max_iterations = 26;
    let a = simulate(&sc);
    let b = simulate(&dispute_wheel());
    assert_eq!(a.status, RunStatus::Oscillation);
    assert_eq!(a.trace_fingerprint, b.trace_fingerprint);
}

#[test]
fn steps_are_numbered_from_one() {
    let r = simulate(&basic_preferences());
    for (i, s) in r.steps.iter().enumerate() {
        assert_eq!(s.seq, i + 1);
    }
    assert_eq!(r.steps[0].kind, StepKind::OriginInject);
    assert_eq!(r.steps[0].summary, "R1 originates 10.10.0.0/16");
}

#[test]
fn presentation_does_not_count() {
    let mut sc = equal_paths();
    sc.name = "other".into();
    sc.description = "".into();
    assert_eq!(simulate(&sc).trace_fingerprint, simulate(&equal_paths()).trace_fingerprint);
}

#[test]
fn loop_evidence_names_path_and_as() {
    let r = simulate(&as_path_loop());
    let rec = r
        .steps
        .iter()
        .filter(|s| s.node == "Z")
        .filter_map(|s| s.receive.as_ref())
        .next()
        .unwrap();
    assert!(!rec.accepted);
    assert_eq!(rec.reason, "as-path-loop");
    assert_eq!(rec.route_after, None);
    let ev = rec.loop_evidence.as_ref().unwrap();
    assert_eq!(ev.kind, "as-path-loop");
    assert_eq!(ev.own_as, 65201);
    assert_eq!(ev.as_path, vec![65204, 65201]);
    assert_eq!(
        ev.detail,
        "incoming AS_PATH [65204, 65201] already contains local AS 65201: refused per RFC 4271 §9.1.2"
    );
    let at_x = r
        .steps
        .iter()
        .filter(|s| s.node == "X")
        .filter_map(|s| s.receive.as_ref())
        .next()
        .unwrap();
    assert!(!at_x.accepted);
    assert_eq!(
        at_x.loop_evidence.as_ref().unwrap().as_path,
        vec![65204, 65204, 65201],
        "one extra prepend toward X"
    );
    assert!(r.best.iter().all(|b| b.node != "X" && b.node != "Z"));
}

fn line(kind: SessionKind, policy: Policy) -> ScenarioInput {
    let mut nodes: OrdMap<String, NodeSpec> = OrdMap::new();
    let plain = |asn: u32| NodeSpec {
        asn,
        x: "0.0".into(),
        y: "0.0".into(),
        policy: Policy::default(),
    };
    nodes.insert("A".into(), plain(1));
    nodes.insert("B".into(), NodeSpec { policy, ..plain(2) });
    nodes.insert("C".into(), plain(2));
    let sess = |l: &str, r: &str, kind: SessionKind| Session {
        id: format!("{l}-{r}"),
        local: l.into(),
        remote: r.into(),
        kind,
        delay: 1,
    };
    ScenarioInput {
        name: "line".into(),
        description: "".into(),
        nodes,
        sessions: vec![
            sess("A", "B", kind),
            sess("B", "C", SessionKind::IBgp),
            sess("C", "B", SessionKind::IBgp),
        ],
        announcements: vec![Announcement {
            id: "a".into(),
            node: "A".into(),
            prefix: "10/8".into(),
            local_pref: 100,
            med: None,
            communities: vec![],
        }],
        events: vec![],
        max_iterations: 100,
    }
}

#[test]
fn split_horizon_holds_back_ibgp_routes() {
    let r = simulate(&line(SessionKind::IBgp, Policy::default()));
    assert_eq!(r.status, RunStatus::Stable);
    assert!(r.best.iter().all(|b| b.node != "C"), "B learned it over iBGP");
    let export = r
        .steps
        .iter()
        .flat_map(|s| s.exports.clone())
        .find(|e| e.session == "B-C")
        .unwrap();
    assert!(!export.published);
    assert_eq!(export.reason, "ibgp-split-horizon");
    assert_eq!(export.suppressed.len(), 1);
    assert_eq!(export.suppressed[0].reason, "ibgp-split-horizon");
    assert_eq!(
        export.suppressed[0].detail,
        "route never advertised on this session; no UPDATE emitted"
    );
}

#[test]
fn ebgp_routes_pass_over_ibgp_without_prepend() {
    let r = simulate(&line(SessionKind::EBgp, Policy::default()));
    let c = r.best.iter().find(|b| b.node == "C").unwrap();
    assert_eq!(c.route.as_path, vec![1]);
    assert_eq!(c.route.provenance, Provenance::IBgp);
    assert_eq!(c.route.ingress_session.as_deref(), Some("B-C"));
    let back = r
        .steps
        .iter()
        .filter(|s| s.node == "C")
        .flat_map(|s| s.exports.clone())
        .find(|e| e.session == "C-B")
        .unwrap();
    assert_eq!(back.reason, "ibgp-split-horizon");
}

#[test]
fn export_rejection_is_evidence() {
    let policy = Policy {
        import: vec![],
        export: vec![Rule {
            id: "no".into(),
            description: "".into(),
            when: Match { peer: Some("C".into()), ..Default::default() },
            do_: Action::default(),
            on_match: OnMatch::Reject,
        }],
    };
    let r = simulate(&line(SessionKind::EBgp, policy));
    let export = r
        .steps
        .iter()
        .flat_map(|s| s.exports.clone())
        .find(|e| e.session == "B-C")
        .unwrap();
    assert_eq!(export.reason, "export-rejected: rule no terminated reject");
    assert!(export.policy.is_some());
    assert_eq!(export.route, None);
}

#[test]
fn import_rejection_keeps_the_old_entry() {
    // B takes the route while it carries the community and refuses it afterwards.
    let policy = Policy {
        import: vec![Rule {
            id: "deny-med".into(),
            description: "".into(),
            when: Match { med: Some(7), ..Default::default() },
            do_: Action::default(),
            on_match: OnMatch::Reject,
        }],
        export: vec![],
    };
    let mut sc = line(SessionKind::EBgp, policy);
    sc.announcements.push(Announcement {
        id: "b".into(),
        node: "A".into(),
        prefix: "10/8".into(),
        local_pref: 100,
        med: Some(7),
        communities: vec![],
    });
    // The second announcement is queued behind the first and replaces it at A; what is
    // still queued for B is superseded, so B only ever sees the refused route.
    let r = simulate(&sc);
    let at_b: Vec<_> = r.steps.iter().filter(|s| s.node == "B").collect();
    assert_eq!(at_b.len(), 1, "the superseded message left no step");
    let rec = at_b[0].receive.as_ref().unwrap();
    assert!(!rec.accepted);
    assert!(rec.loop_evidence.is_none());
    assert_eq!(rec.reason, "rule deny-med terminated reject");
    assert!(r.best.iter().all(|b| b.node != "B"));
}

#[test]
fn withdrawal_says_what_it_found() {
    let r = simulate(&basic_preferences());
    let w = r.steps.iter().find(|s| s.kind == StepKind::Withdraw).unwrap();
    assert_eq!(w.tick, 41, "sent at tick 40 over a session with a delay of 1");
    assert_eq!(
        w.summary,
        "R2 withdraws 10.10.0.0/16 from R1 (entry present): best_changed=true"
    );
    let o = r.steps.iter().find(|s| s.kind == StepKind::OriginWithdraw).unwrap();
    assert_eq!(o.tick, 40);
    assert_eq!(o.summary, "R1 withdraws originated 10.10.0.0/16");
}

#[test]
fn restart_of_an_origin_announces_again() {
    let mut sc = equal_paths();
    sc.events = vec![EventSpec::Restart { id: "r".into(), node: "E".into(), tick: 20 }];
    let r = simulate(&sc);
    let step = r.steps.iter().find(|s| s.kind == StepKind::Restart).unwrap();
    assert_eq!(step.summary, "E restarts: Adj-RIB-In cleared, local routes re-originated");
    assert_eq!(step.exports.len(), 1);
    assert!(step.exports[0].published);
    assert!(r.best.iter().any(|b| b.node == "E" && b.route.provenance == Provenance::Origin));
}

#[test]
fn unknown_withdrawal_is_ignored_by_the_engine() {
    let mut sc = equal_paths();
    let before = simulate(&sc).trace_fingerprint;
    sc.events =
        vec![EventSpec::Withdraw { id: "w".into(), announcement: "none".into(), tick: 5 }];
    assert_eq!(simulate(&sc).trace_fingerprint, before);
}

#[test]
fn a_run_without_announcements_is_stable_at_once() {
    let mut sc = equal_paths();
    sc.announcements = vec![];
    let r = Engine::new(&sc).run();
    assert_eq!(r.status, RunStatus::Stable);
    assert_eq!(r.messages_processed, 0);
    assert_eq!(r.ticks, 0);
    assert_eq!(r.states.len(), 3);
}

#[test]
fn a_cap_of_zero_processes_nothing() {
    let mut sc = equal_paths();
    sc.max_iterations = 0;
    let r = simulate(&sc);
    assert_eq!(r.status, RunStatus::Inconclusive);
    assert_eq!(r.messages_processed, 0);
}

#[test]
fn advertised_routes_are_listed_and_keyed() {
    let r = simulate(&equal_paths());
    let e = r.states.iter().find(|s| s.node == "E").unwrap();
    assert!(e.advertised.contains_key(&"E-G|203.0.113.0/24".to_string()));
    let adv = r.advertised.iter().find(|a| a.session == "E-G").unwrap();
    assert_eq!(adv.from, "E");
    assert_eq!(adv.to, "G");
    assert_eq!(adv.route.as_path, vec![65305]);
    let g = r.best.iter().find(|b| b.node == "G").unwrap();
    assert_eq!(g.route.ingress_session.as_deref(), Some("E-G"));
    assert_eq!(g.equal_peer.as_deref(), Some("F"));
}

fn router(asn: u32, policy: Policy) -> NodeSpec {
    NodeSpec { asn, x: "0.0".into(), y: "0.0".into(), policy }
}

fn pair() -> ScenarioInput {
    let mut sc = line(SessionKind::EBgp, Policy::default());
    sc.nodes = OrdMap::new();
    sc.nodes.insert("P".into(), router(1, Policy::default()));
    sc.nodes.insert("N".into(), router(2, Policy::default()));
    sc.sessions = vec![Session {
        id: "P-N".into(),
        local: "P".into(),
        remote: "N".into(),
        kind: SessionKind::EBgp,
        delay: 1,
    }];
    sc.announcements[0].node = "P".into();
    sc.announcements[0].prefix = "10.0.0.0/8".into();
    sc.events = vec![EventSpec::Restart { id: "r".into(), node: "N".into(), tick: 10 }];
    sc.max_iterations = 100;
    sc
}

#[test]
fn what_is_sent_again_after_a_restart_carries_the_sender_as() {
    let r = simulate(&pair());
    assert_eq!(r.status, RunStatus::Stable);
    let n = r.best.iter().find(|b| b.node == "N").unwrap();
    assert_eq!(n.route.as_path, vec![1]);
    assert_eq!(n.route.provenance, Provenance::EBgp);
    let ticks: Vec<u64> = r.steps.iter().map(|s| s.tick).collect();
    assert_eq!(ticks, vec![0, 1, 10, 11]);
    assert_eq!(r.ticks, 11);
    assert_eq!(r.steps[3].kind, StepKind::Receive);
    let sent = r.advertised.iter().find(|a| a.session == "P-N").unwrap();
    assert_eq!(sent.route.as_path, vec![1]);
}

#[test]
fn what_is_sent_again_after_a_restart_passes_the_export_policy() {
    let refuse = Policy {
        import: vec![],
        export: vec![Rule {
            id: "no".into(),
            description: "".into(),
            when: Match::default(),
            do_: Action::default(),
            on_match: OnMatch::Reject,
        }],
    };
    let mut sc = pair();
    sc.nodes.insert("P".into(), router(1, refuse));
    let r = simulate(&sc);
    assert_eq!(r.status, RunStatus::Stable);
    assert_eq!(r.messages_processed, 2, "the injection and the restart");
    assert!(r.best.iter().all(|b| b.node != "N"));
    assert!(r.advertised.is_empty());

    let rewrite = Policy {
        import: vec![],
        export: vec![Rule {
            id: "twice".into(),
            description: "".into(),
            when: Match::default(),
            do_: Action { as_path_prepend: Some(1), ..Default::default() },
            on_match: OnMatch::Accept,
        }],
    };
    let mut sc = pair();
    sc.nodes.insert("P".into(), router(1, rewrite));
    let r = simulate(&sc);
    let n = r.best.iter().find(|b| b.node == "N").unwrap();
    assert_eq!(n.route.as_path, vec![1, 1]);
}

#[test]
fn a_restart_does_not_lift_split_horizon() {
    let mut sc = line(SessionKind::IBgp, Policy::default());
    sc.events = vec![EventSpec::Restart { id: "r".into(), node: "C".into(), tick: 20 }];
    let r = simulate(&sc);
    assert_eq!(r.status, RunStatus::Stable);
    assert!(r.best.iter().all(|b| b.node != "C"));
    assert!(r.steps.iter().all(|s| s.node != "C" || s.kind == StepKind::Restart));
}

#[test]
fn time_runs_forward() {
    let mut all = vec![
        basic_preferences(),
        med_community_rewrite(),
        as_path_loop(),
        equal_paths(),
        dispute_wheel(),
        pair(),
    ];
    let mut late = basic_preferences();
    late.events.push(EventSpec::Restart { id: "r".into(), node: "R2".into(), tick: 90 });
    all.push(late);
    for sc in all.iter() {
        let r = simulate(sc);
        for two in r.steps.windows(2) {
            assert!(two[0].tick <= two[1].tick);
        }
        assert_eq!(r.ticks, r.steps.iter().map(|s| s.tick).max().unwrap_or(0));
    }
}

#[test]
fn constraints_hold_of_every_result() {
    let mut all = vec![
        basic_preferences(),
        med_community_rewrite(),
        as_path_loop(),
        equal_paths(),
        dispute_wheel(),
        pair(),
        line(SessionKind::IBgp, Policy::default()),
        line(SessionKind::EBgp, Policy::default()),
    ];
    for sc in all.iter_mut() {
        for cap in [5usize, 40, 100] {
            sc.max_iterations = cap;
            let r = simulate(sc);
            for b in r.best.iter().filter(|b| b.route.provenance == Provenance::EBgp) {
                let asn = sc.nodes.get(&b.node).unwrap().asn;
                assert!(!b.route.as_path.contains(&asn));
            }
            for a in r.advertised.iter() {
                let s = sc.sessions.iter().rev().find(|s| s.id == a.session).unwrap();
                assert!(
                    s.kind == SessionKind::EBgp || a.route.provenance != Provenance::IBgp
                );
            }
        }
    }
}
