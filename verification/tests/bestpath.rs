use bgp_lab::bestpath::{pick, select, Candidate};
use bgp_lab::model::{Provenance, Route};

fn cand(
    node: &str,
    sess: &str,
    lp: i64,
    path: Vec<u32>,
    med: Option<i64>,
    prov: Provenance,
) -> Candidate {
    Candidate {
        node: node.into(),
        ingress_session: Some(sess.into()),
        route: Route {
            prefix: "10/8".into(),
            as_path: path,
            local_pref: lp,
            med,
            communities: vec![],
            provenance: prov,
            ingress_session: Some(sess.into()),
            first_as: None,
        },
    }
}

#[test]
fn local_pref_beats_as_path() {
    let cs = vec![
        cand("A", "s-a", 200, vec![1, 2, 3], None, Provenance::EBgp),
        cand("B", "s-b", 100, vec![9], None, Provenance::EBgp),
    ];
    assert_eq!(select(&cs).winner.as_deref(), Some("A"));
}

#[test]
fn equal_attributes_report_peer_and_stable_winner() {
    let mk = || {
        vec![
            cand("Z", "s-z", 100, vec![7], Some(5), Provenance::EBgp),
            cand("A", "s-a", 100, vec![7], Some(5), Provenance::EBgp),
            cand("M", "s-m", 100, vec![7], Some(5), Provenance::EBgp),
        ]
    };
    let r1 = select(&mk());
    let mut rev = mk();
    rev.reverse();
    let r2 = select(&rev);
    assert_eq!(r1.winner, r2.winner);
    assert_eq!(r1.winner.as_deref(), Some("A"));
    assert_eq!(r1.equal_peer, r2.equal_peer);
    assert_eq!(r1.tie_key_winner, r2.tie_key_winner);
}

#[test]
fn med_skipped_across_neighbor_as() {
    let cs = vec![
        cand("A", "s-a", 100, vec![100, 9], Some(999), Provenance::EBgp),
        cand("B", "s-b", 100, vec![200, 9], Some(1), Provenance::EBgp),
    ];
    assert!(select(&cs)
        .stages
        .iter()
        .any(|s| s.name == "med" && s.detail.starts_with("skipped")));
}

#[test]
fn no_candidates_no_winner() {
    let r = select(&vec![]);
    assert_eq!(r.winner, None);
    assert_eq!(r.equal_peer, None);
    assert_eq!(r.tie_key_winner, None);
    assert!(r.stages.is_empty());
    assert_eq!(pick(&vec![]).1, None);
}

#[test]
fn stages_decide_one_after_another() {
    let shorter = vec![
        cand("A", "s-a", 100, vec![1, 2], None, Provenance::EBgp),
        cand("B", "s-b", 100, vec![9], None, Provenance::IBgp),
    ];
    let r = select(&shorter);
    assert_eq!(r.winner.as_deref(), Some("B"));
    assert_eq!(r.stages.len(), 3);
    assert_eq!(r.stages[0].detail, "2 eligible route(s) in Adj-RIB-In");
    assert_eq!(r.stages[2].stage, 2);
    assert_eq!(r.stages[2].retained, vec!["B".to_string()]);

    let origin = vec![
        cand("A", "s-a", 100, vec![1], None, Provenance::IBgp),
        cand("B", "s-b", 100, vec![1], None, Provenance::EBgp),
        cand("C", "s-c", 100, vec![1], None, Provenance::Origin),
    ];
    let r = select(&origin);
    assert_eq!(r.winner.as_deref(), Some("C"));
    assert_eq!(r.stages.last().unwrap().name, "origin-type");

    let med = vec![
        cand("A", "s-a", 100, vec![1], Some(3), Provenance::EBgp),
        cand("B", "s-b", 100, vec![1], None, Provenance::EBgp),
    ];
    let r = select(&med);
    assert_eq!(r.winner.as_deref(), Some("B"), "a missing MED counts as zero");
    assert_eq!(r.equal_peer, None);
}

#[test]
fn lowest_neighbor_id_then_key() {
    let cs = vec![
        cand("R2", "s-2", 100, vec![1], None, Provenance::EBgp),
        cand("R10", "s-10b", 100, vec![1], None, Provenance::EBgp),
        cand("R10", "s-10a", 100, vec![1], None, Provenance::EBgp),
    ];
    let (r, at) = pick(&cs);
    assert_eq!(r.winner.as_deref(), Some("R10"));
    assert_eq!(at, Some(2), "the lower session id wins within one neighbor");
    assert_eq!(r.equal_peer.as_deref(), Some("R2"));
    assert_eq!(r.tie_key_winner.as_deref(), Some("10/8|100|1|0|ebgp||s-10a|R10"));
    let names: Vec<&str> = r.stages.iter().map(|s| s.name.as_str()).collect();
    assert_eq!(
        names,
        vec![
            "candidates",
            "local-pref",
            "as-path-length",
            "origin-type",
            "med",
            "ebgp-over-ibgp",
            "router-id",
            "deterministic-tie-break",
        ]
    );
}

#[test]
fn equal_peer_needs_equal_attributes() {
    let cs = vec![
        cand("A", "s-a", 100, vec![1, 5], None, Provenance::EBgp),
        cand("B", "s-b", 100, vec![1, 6], None, Provenance::EBgp),
    ];
    let r = select(&cs);
    assert_eq!(r.winner.as_deref(), Some("A"));
    assert_eq!(r.equal_peer, None);
}

#[test]
fn extreme_local_prefs_are_ordered() {
    let cs = vec![
        cand("A", "s-a", i64::MIN, vec![1], None, Provenance::EBgp),
        cand("B", "s-b", i64::MAX, vec![1, 2, 3], None, Provenance::EBgp),
    ];
    assert_eq!(select(&cs).winner.as_deref(), Some("B"));
}

#[test]
fn own_route_is_named_by_its_node() {
    let mut own = cand("N", "x", 100, vec![], Some(0), Provenance::Origin);
    own.ingress_session = None;
    let r = select(&vec![own]);
    assert_eq!(r.tie_key_winner.as_deref(), Some("10/8|100||0|origin||origin@N|N"));
}

#[test]
fn community_order_does_not_separate() {
    let mut a = cand("A", "s-a", 100, vec![1], None, Provenance::EBgp);
    let mut b = cand("B", "s-b", 100, vec![1], None, Provenance::EBgp);
    a.route.communities = vec!["x".into(), "y".into()];
    b.route.communities = vec!["y".into(), "x".into()];
    assert_eq!(select(&vec![a, b]).equal_peer.as_deref(), Some("B"));
}

#[test]
fn equal_texts_of_unequal_attributes_are_no_peers() {
    let mut a = cand("A", "s-a", 100, vec![1], None, Provenance::EBgp);
    let mut b = cand("B", "s-b", 100, vec![1], None, Provenance::EBgp);
    a.route.communities = vec!["a,b".into()];
    b.route.communities = vec!["a".into(), "b".into()];
    let r = select(&vec![a.clone(), b.clone()]);
    assert_eq!(r.winner.as_deref(), Some("A"));
    assert_eq!(r.equal_peer, None);
    assert_eq!(select(&vec![b, a]).equal_peer, None);
}

#[test]
fn order_of_candidates_does_not_count() {
    let mut pool = vec![
        cand("C", "s-c", 100, vec![7, 8], None, Provenance::EBgp),
        cand("A", "s-a", 100, vec![7, 8], Some(0), Provenance::EBgp),
        cand("B", "s-b", 100, vec![7, 8], None, Provenance::EBgp),
    ];
    for _ in 0..3 {
        pool.rotate_left(1);
        let r = select(&pool);
        assert_eq!(r.winner.as_deref(), Some("A"));
        assert_eq!(r.equal_peer.as_deref(), Some("B"));
    }
}

#[test]
fn order_does_not_count_where_two_candidates_share_a_key() {
    let with = |node: &str, sess: &str, communities: Vec<&str>| {
        let mut c = cand(node, sess, 100, vec![1], None, Provenance::EBgp);
        c.route.communities = communities.into_iter().map(String::from).collect();
        c
    };
    let x = with("A", "s", vec!["a,b"]);
    let y = with("A", "s", vec!["a", "b"]);
    let z = with("B", "u", vec!["a,b"]);
    let orders = [
        vec![x.clone(), y.clone(), z.clone()],
        vec![x.clone(), z.clone(), y.clone()],
        vec![y.clone(), x.clone(), z.clone()],
        vec![y.clone(), z.clone(), x.clone()],
        vec![z.clone(), x.clone(), y.clone()],
        vec![z.clone(), y.clone(), x.clone()],
    ];
    for pool in orders.iter() {
        let r = select(pool);
        assert_eq!(r.winner.as_deref(), Some("A"));
        assert_eq!(r.equal_peer.as_deref(), Some("B"));
        assert_eq!(r.tie_key_winner.as_deref(), Some("10/8|100|1|0|ebgp|a,b|s|A"));
    }
    // Without the candidate that B's equals, nothing is equal to the winner.
    assert_eq!(select(&vec![y.clone(), z.clone()]).equal_peer, None);
    assert_eq!(select(&vec![z, y]).equal_peer, None);
}
