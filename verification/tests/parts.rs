use bgp_lab::fixtures;
use bgp_lab::model::{
    default_delay, default_local_pref, default_max_iterations, default_med_zero,
    default_on_match, Direction, OnMatch, Provenance, Route, SessionKind,
};
use bgp_lab::ordmap::OrdMap;
use bgp_lab::queue::{pop, schedule, MsgKind, Scheduled};
use bgp_lab::router::{route, Endpoint, HttpMethod};
use bgp_lab::signature::state_signature;
use bgp_lab::text::{i64_text, join_strs, quote_list, sort_strs, str_less, u64_text};
use bgp_lab::value::Value;

fn msg(tick: u64, session: Option<&str>, prefix: &str) -> Scheduled {
    Scheduled {
        tick,
        kind: MsgKind::Withdraw,
        node: "n".into(),
        session: session.map(|s| s.to_string()),
        prefix: Some(prefix.into()),
        route: None,
        stale: false,
    }
}

#[test]
fn messages_leave_by_tick_and_order_of_scheduling() {
    let mut queue: Vec<Scheduled> = vec![];
    schedule(&mut queue, msg(5, None, "a"));
    schedule(&mut queue, msg(3, None, "b"));
    schedule(&mut queue, msg(3, None, "c"));
    let mut order = vec![];
    while let Some(m) = pop(&mut queue) {
        order.push(m.prefix.unwrap());
    }
    assert_eq!(order, vec!["b".to_string(), "c".to_string(), "a".to_string()]);
}

#[test]
fn fresher_messages_supersede() {
    let mut queue: Vec<Scheduled> = vec![];
    schedule(&mut queue, msg(5, Some("s"), "a"));
    schedule(&mut queue, msg(5, Some("s"), "b"));
    schedule(&mut queue, msg(5, None, "a"));
    schedule(&mut queue, msg(9, Some("s"), "a"));
    let stale: Vec<bool> = queue.iter().map(|m| m.stale).collect();
    assert_eq!(stale, vec![true, false, false, false]);
}

#[test]
fn signatures_ignore_queue_order_and_absolute_ticks() {
    let nodes = OrdMap::new();
    let a = vec![msg(5, Some("s"), "a"), msg(7, Some("s"), "b")];
    let b = vec![msg(17, Some("s"), "b"), msg(15, Some("s"), "a")];
    let c = vec![msg(5, Some("s"), "a"), msg(8, Some("s"), "b")];
    assert_eq!(state_signature(&nodes, &a), state_signature(&nodes, &b));
    assert_ne!(state_signature(&nodes, &a), state_signature(&nodes, &c));
    assert_ne!(state_signature(&nodes, &a), state_signature(&nodes, &vec![]));
}

#[test]
fn maps_keep_their_keys_in_order() {
    let mut m: OrdMap<String, u64> = OrdMap::new();
    m.insert("R2".into(), 2);
    m.insert("R10".into(), 10);
    m.insert("R1".into(), 1);
    m.insert("R2".into(), 22);
    let keys: Vec<String> = (0..m.len()).map(|i| m.key_at(i).clone()).collect();
    assert_eq!(keys, vec!["R1".to_string(), "R10".to_string(), "R2".to_string()]);
    assert_eq!(m.get(&"R2".to_string()), Some(&22));
    let copy = m.copy();
    assert_eq!(m.remove(&"R10".to_string()), Some(10));
    assert_eq!(m.remove(&"R10".to_string()), None);
    assert!(!m.same(&copy));
    assert_eq!(copy.into_entries().len(), 3);
}

#[test]
fn numbers_and_lists_as_text() {
    assert_eq!(u64_text(0), "0");
    assert_eq!(u64_text(u64::MAX), "18446744073709551615");
    assert_eq!(i64_text(i64::MIN), "-9223372036854775808");
    assert_eq!(i64_text(-1), "-1");
    let list: Vec<String> = vec!["b".into(), "a\n".into(), "B".into()];
    assert_eq!(quote_list(&list), "[\"b\", \"a\\n\", \"B\"]");
    assert_eq!(join_strs(&sort_strs(list), "+"), "B+a\n+b");
    assert!(str_less("a", "é"));
    assert!(str_less("", "a"));
    assert!(!str_less("a", "a"));
}

#[test]
fn requests_find_their_endpoints() {
    assert_eq!(route(HttpMethod::Get, "/"), Endpoint::Index);
    assert_eq!(route(HttpMethod::Get, "/index.html?x=1"), Endpoint::Index);
    assert_eq!(route(HttpMethod::Get, "/app.js"), Endpoint::AppJs);
    assert_eq!(route(HttpMethod::Get, "/api/scenarios"), Endpoint::ListScenarios);
    assert_eq!(route(HttpMethod::Post, "/api/scenarios"), Endpoint::CreateScenario);
    assert_eq!(route(HttpMethod::Get, "/api/scenarios/ab12"), Endpoint::GetScenario("ab12".into()));
    assert_eq!(
        route(HttpMethod::Get, "/api/scenarios/ab12/result?q"),
        Endpoint::GetScenario("ab12".into())
    );
    assert_eq!(route(HttpMethod::Get, "/api/scenarios/ab12/other"), Endpoint::NotFound);
    assert_eq!(
        route(HttpMethod::Post, "/api/scenarios/ab12/preview"),
        Endpoint::Preview("ab12".into())
    );
    assert_eq!(
        route(HttpMethod::Post, "/api/scenarios/ab12/commit"),
        Endpoint::Commit("ab12".into())
    );
    assert_eq!(route(HttpMethod::Post, "/api/scenarios/ab12"), Endpoint::NotFound);
    assert_eq!(route(HttpMethod::Post, "/api/drafts/diff"), Endpoint::DraftsDiff);
    assert_eq!(route(HttpMethod::Get, "/api/health"), Endpoint::Health);
    assert_eq!(route(HttpMethod::Post, "/api/health"), Endpoint::NotFound);
    assert_eq!(route(HttpMethod::Other, "/"), Endpoint::NotFound);
}

#[test]
fn repeated_parts_of_a_path_are_stripped() {
    assert_eq!(
        route(HttpMethod::Get, "/api/scenarios//api/scenarios/x"),
        Endpoint::GetScenario("x".into())
    );
    assert_eq!(
        route(HttpMethod::Post, "/api/scenarios/x/preview/preview"),
        Endpoint::Preview("x".into())
    );
    assert_eq!(
        route(HttpMethod::Post, "/api/scenarios/preview"),
        Endpoint::Preview("preview".into())
    );
}

#[test]
fn fixtures_by_name() {
    assert_eq!(fixtures::by_name("wheel").unwrap().name, "dispute-wheel");
    assert_eq!(fixtures::by_name("dispute-wheel").unwrap().name, "dispute-wheel");
    assert_eq!(fixtures::by_name("basic").unwrap().name, "basic-preferences");
    assert_eq!(fixtures::by_name("med").unwrap().name, "med-community-rewrite");
    assert_eq!(fixtures::by_name("loop").unwrap().name, "as-path-loop");
    assert_eq!(fixtures::by_name("equal").unwrap().name, "equal-paths");
    assert!(fixtures::by_name("none").is_none());
    let names: Vec<String> = fixtures::all().iter().map(|f| f.name.clone()).collect();
    assert_eq!(names.len(), 5);
    assert_eq!(names[0], "basic-preferences");
    assert_eq!(names[4], "dispute-wheel");
}

#[test]
fn defaults_and_names_of_the_model() {
    assert_eq!(default_delay(), 1);
    assert_eq!(default_local_pref(), 100);
    assert_eq!(default_med_zero(), Some(0));
    assert_eq!(default_max_iterations(), 100_000);
    assert_eq!(default_on_match(), OnMatch::Continue);
    assert_eq!(SessionKind::EBgp.as_str(), "ebgp");
    assert_eq!(SessionKind::IBgp.as_str(), "ibgp");
    assert_eq!(Direction::Export.as_str(), "export");
    assert_eq!(Provenance::Origin.as_str(), "origin");
    assert!(Provenance::Origin.rank() < Provenance::EBgp.rank());
    assert!(Provenance::EBgp.rank() < Provenance::IBgp.rank());
    let r = Route::origin("10/8".into(), 7);
    assert_eq!(r.local_pref, 100);
    assert_eq!(r.med, Some(0));
    assert_eq!(r.neighbor_as(), Some(7));
    let mut learned = r.clone();
    learned.as_path = vec![9, 7];
    assert_eq!(learned.neighbor_as(), Some(9));
}
