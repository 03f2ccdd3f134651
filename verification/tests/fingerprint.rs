use bgp_lab::fingerprint::{
    canonical_string, canonicalize, fingerprint_and_id, fingerprint_hex, hex_text, to_canonical,
};
use bgp_lab::json::{write_json, Json, ToJson};
use bgp_lab::model::{Action, Cmp, EventSpec, Match, OnMatch, Policy, Provenance, Route, Rule};
use bgp_lab::signature::canon_route;

fn text(s: &str) -> Json {
    Json::Text(s.to_string())
}

fn number(s: &str) -> Json {
    Json::Number(s.to_string())
}

fn route() -> Route {
    Route {
        prefix: "10/8".into(),
        as_path: vec![1, 2],
        local_pref: -5,
        med: None,
        communities: vec!["x\"y".into(), "é".into()],
        provenance: Provenance::EBgp,
        ingress_session: Some("s".into()),
        first_as: None,
    }
}

#[test]
fn digests_of_known_texts() {
    let parts: Vec<String> = vec!["a".into(), "b".into()];
    assert_eq!(
        fingerprint_hex(&parts),
        "0473ef2dc0d324ab659d3580c1134e9d812035905c4781fdd6d529b0c6860e13"
    );
    let none: Vec<String> = vec![];
    assert_eq!(
        fingerprint_hex(&none),
        "4f53cda18c2baa0c0354bb5f9a3ecbe5ed12ab4d8e11ba873c2f11161202b945"
    );
    assert_eq!(
        fingerprint_hex(&route()),
        "a91986884c039ae643a478a592b31cef20f34e21a9603278ecf9f5ac2a118f4c"
    );
}

#[test]
fn ids_are_the_first_sixteen_characters() {
    let (fp, id) = fingerprint_and_id(&Json::Array(vec![]));
    assert_eq!(fp.len(), 64);
    assert_eq!(id, "4f53cda18c2baa0c");
    assert_eq!(id, fp[..16]);
}

#[test]
fn canonical_text_sorts_keys_and_escapes() {
    assert_eq!(
        canonical_string(&route()),
        "{\"as_path\":[1,2],\"communities\":[\"x\\\"y\",\"é\"],\"first_as\":null,\
         \"ingress_session\":\"s\",\"local_pref\":-5,\"med\":null,\"prefix\":\"10/8\",\
         \"provenance\":\"ebgp\"}"
    );
    assert_eq!(write_json(&to_canonical(&route())), canonical_string(&route()));
}

#[test]
fn strings_are_escaped_as_json() {
    let all = "a\"\\/\u{8}\u{c}\n\r\t\u{0}\u{1b}\u{1f} \u{7f}é".to_string();
    assert_eq!(
        canonical_string(&all),
        "\"a\\\"\\\\/\\b\\f\\n\\r\\t\\u0000\\u001b\\u001f \u{7f}é\""
    );
}

#[test]
fn routes_in_signatures_keep_field_order_and_sort_communities() {
    let mut r = route();
    r.communities = vec!["b".into(), "a".into()];
    assert_eq!(
        canon_route(&r),
        "{\"prefix\":\"10/8\",\"as_path\":[1,2],\"local_pref\":-5,\"med\":null,\
         \"communities\":[\"a\",\"b\"],\"provenance\":\"ebgp\",\"ingress_session\":\"s\",\
         \"first_as\":null}"
    );
    let mut swapped = r.clone();
    swapped.communities.reverse();
    assert_eq!(canon_route(&r), canon_route(&swapped));
}

#[test]
fn member_order_does_not_count() {
    let a = Json::Object(vec![("x".into(), number("1")), ("b".into(), text("2"))]);
    let b = Json::Object(vec![("b".into(), text("2")), ("x".into(), number("1"))]);
    assert_eq!(write_json(&canonicalize(&a)), "{\"b\":\"2\",\"x\":1}");
    assert_eq!(fingerprint_and_id(&a).0, fingerprint_and_id(&b).0);
    let nested = Json::Array(vec![a, Json::Null, Json::Bool(true)]);
    let once = canonicalize(&nested);
    assert_eq!(write_json(&once), "[{\"b\":\"2\",\"x\":1},null,true]");
    assert_eq!(write_json(&canonicalize(&once)), write_json(&once));
}

#[test]
fn of_two_members_with_one_key_the_later_stays() {
    let twice = Json::Object(vec![("k".into(), number("1")), ("k".into(), number("2"))]);
    assert_eq!(write_json(&canonicalize(&twice)), "{\"k\":2}");
}

#[test]
fn hexadecimal_digits() {
    assert_eq!(hex_text(&vec![0, 255, 16, 171]), "00ff10ab");
}

#[test]
fn rules_leave_out_what_they_do_not_name() {
    let rule = Rule {
        id: "r".into(),
        description: "".into(),
        when: Match::default(),
        do_: Action::default(),
        on_match: OnMatch::Reject,
    };
    assert_eq!(
        write_json(&rule.to_json()),
        "{\"id\":\"r\",\"description\":\"\",\"when\":{\"peer\":null,\"prefix\":null},\
         \"do\":{},\"on_match\":\"reject\"}"
    );
    let full = Match {
        peer: Some("p".into()),
        prefix: Some("q".into()),
        prefix_cmp: Some(Cmp::NotIn),
        as_path_len: Some(3),
        as_path_len_cmp: Some(Cmp::Gte),
        as_path_contains: vec![7],
        local_pref: Some(1),
        local_pref_cmp: Some(Cmp::Lte),
        med: Some(-2),
        med_cmp: Some(Cmp::Ne),
        community_any: vec!["c".into()],
        community_any_cmp: Some(Cmp::In),
    };
    assert_eq!(
        write_json(&full.to_json()),
        "{\"peer\":\"p\",\"prefix\":\"q\",\"prefix_cmp\":\"not-in\",\"as_path_len\":3,\
         \"as_path_len_cmp\":\"gte\",\"as_path_contains\":[7],\"local_pref\":1,\
         \"local_pref_cmp\":\"lte\",\"med\":-2,\"med_cmp\":\"ne\",\"community_any\":[\"c\"],\
         \"community_any_cmp\":\"in\"}"
    );
    assert_eq!(write_json(&Policy::default().to_json()), "{\"import\":[],\"export\":[]}");
}

#[test]
fn events_carry_their_type() {
    let w = EventSpec::Withdraw { id: "i".into(), announcement: "a".into(), tick: 4 };
    assert_eq!(
        write_json(&w.to_json()),
        "{\"type\":\"withdraw\",\"id\":\"i\",\"announcement\":\"a\",\"tick\":4}"
    );
    let r = EventSpec::Restart { id: "i".into(), node: "n".into(), tick: 5 };
    assert_eq!(
        write_json(&r.to_json()),
        "{\"type\":\"restart\",\"id\":\"i\",\"node\":\"n\",\"tick\":5}"
    );
}
