//! Canonical JSON serialization and SHA-256 fingerprints.
//!
//! Fingerprints are content-addressed: the same logical scenario (regardless of map
//! insertion order or whitespace) produces the same id, so computations can be
//! deduplicated purely by inputs and policy fingerprint.

use crate::json::{json_text, write_json, Json, JsonView, ToJson};
use crate::ordmap::{in_order, lemma_in_order_exists, Key, OrdMap};
use crate::text::{hex_digit, Chars};
use sha2::Digest;
use vstd::prelude::*;
use vstd::utf8::encode_utf8;

verus! {

/// The version of the engine semantics. Scenario fingerprints fold it, so that engine
/// upgrades invalidate old runs.
pub const ENGINE_VERSION: u32 = 1;

// ---------- canonical form ----------

/// The members of an object that a map stands for, in ascending order of the keys.
pub open spec fn members_of(m: Map<Chars, JsonView>) -> Seq<(Chars, JsonView)> {
    in_order::<String>(m.dom()).map_values(|k: Chars| (k, m[k]))
}

/// The canonical form of a JSON value: objects have their keys in ascending order, and
/// of two members with one key the later stays.
pub open spec fn canonical(j: JsonView) -> JsonView
    decreases j,
{
    match j {
        JsonView::Array(items) => JsonView::Array(canonical_items(items)),
        JsonView::Object(members) => JsonView::Object(members_of(canonical_members(members))),
        _ => j,
    }
}

/// The canonical forms of the items of an array.
pub open spec fn canonical_items(items: Seq<JsonView>) -> Seq<JsonView>
    decreases items,
{
    if items.len() == 0 {
        Seq::empty()
    } else {
        canonical_items(items.drop_last()).push(canonical(items.last()))
    }
}

/// The canonical forms of the members of an object, by key.
pub open spec fn canonical_members(members: Seq<(Chars, JsonView)>) -> Map<Chars, JsonView>
    decreases members,
{
    if members.len() == 0 {
        Map::empty()
    } else {
        canonical_members(members.drop_last()).insert(
            members.last().0,
            canonical(members.last().1),
        )
    }
}

/// Brings a JSON value into its canonical form.
pub fn canonicalize(j: &Json) -> (r: Json)
    ensures
        r@ == canonical(j@),
    decreases j,
{
    match j {
        Json::Null => Json::Null,
        Json::Bool(b) => Json::Bool(*b),
        Json::Number(s) => Json::Number(s.clone()),
        Json::Text(s) => Json::Text(s.clone()),
        Json::Array(items) => {
            let ghost views = j@->Array_0;
            let mut out: Vec<Json> = Vec::new();
            let mut i: usize = 0;
            assert(Json::Array(out)@->Array_0 =~= canonical_items(views.take(0)));
            while i < items.len()
                invariant
                    i <= items@.len(),
                    *j == Json::Array(*items),
                    views == j@->Array_0,
                    out@.len() == i,
                    Json::Array(out)@->Array_0 == canonical_items(views.take(i as int)),
                decreases items.len() - i,
            {
                assert(decreases_to!(*j => items@[i as int]));
                let ghost before = Json::Array(out)@->Array_0;
                out.push(canonicalize(&items[i]));
                proof {
                    assert(views.take(i + 1).drop_last() =~= views.take(i as int));
                    assert(views.take(i + 1).last() == items@[i as int]@);
                    assert(Json::Array(out)@->Array_0 =~= before.push(
                        canonical(items@[i as int]@),
                    ));
                }
                i += 1;
            }
            assert(views.take(i as int) =~= views);
            Json::Array(out)
        },
        Json::Object(members) => {
            let ghost views = j@->Object_0;
            let mut out: OrdMap<String, Json> = OrdMap::new();
            let mut i: usize = 0;
            while i < members.len()
                invariant
                    i <= members@.len(),
                    *j == Json::Object(*members),
                    views == j@->Object_0,
                    out@ == canonical_members(views.take(i as int)),
                decreases members.len() - i,
            {
                assert(decreases_to!(*j => members@[i as int].1));
                out.insert(members[i].0.clone(), canonicalize(&members[i].1));
                proof {
                    assert(views.take(i + 1).drop_last() =~= views.take(i as int));
                    assert(views.take(i + 1).last() == (
                        members@[i as int].0@,
                        members@[i as int].1@,
                    ));
                }
                i += 1;
            }
            assert(views.take(i as int) =~= views);
            let ghost m = out@;
            let r = Json::Object(out.into_entries());
            assert(r@->Object_0 =~= members_of(m));
            r
        },
    }
}

/// Converts a value into canonical JSON: objects have their keys in sorted order.
pub fn to_canonical<T: ToJson>(value: &T) -> (r: Json)
    ensures
        r@ == canonical(T::json(value.deep_view())),
{
    canonicalize(&value.to_json())
}

/// Writes a value as canonical JSON, without whitespace.
pub fn canonical_string<T: ToJson>(value: &T) -> (r: String)
    ensures
        r@ == json_text(canonical(T::json(value.deep_view()))),
{
    write_json(&to_canonical(value))
}

// ---------- fingerprints ----------

/// The SHA-256 digest of a byte string.
pub uninterp spec fn sha256_digest(bytes: Seq<u8>) -> Seq<u8>;

/// Calls `sha2::Sha256::digest`. Claims that the digest has 32 bytes and is determined by
/// the bytes it is taken of; how it is computed is not stated.
#[verifier::external_body]
fn sha256(bytes: &[u8]) -> (r: Vec<u8>)
    ensures
        r@ == sha256_digest(bytes@),
        r@.len() == 32,
{
    sha2::Sha256::digest(bytes).to_vec()
}

/// Two lower-case hexadecimal digits for every byte.
pub open spec fn hex(bytes: Seq<u8>) -> Chars
    decreases bytes.len(),
{
    if bytes.len() == 0 {
        Seq::empty()
    } else {
        hex(bytes.drop_last()).push(hex_digit(bytes.last() as int / 16)).push(
            hex_digit(bytes.last() as int % 16),
        )
    }
}

fn hex_digit_str(d: u8) -> (r: &'static str)
    requires
        d < 16,
    ensures
        r@ == seq![hex_digit(d as int)],
{
    proof {
        reveal_strlit("0");
        reveal_strlit("1");
        reveal_strlit("2");
        reveal_strlit("3");
        reveal_strlit("4");
        reveal_strlit("5");
        reveal_strlit("6");
        reveal_strlit("7");
        reveal_strlit("8");
        reveal_strlit("9");
        reveal_strlit("a");
        reveal_strlit("b");
        reveal_strlit("c");
        reveal_strlit("d");
        reveal_strlit("e");
        reveal_strlit("f");
    }
    let r = match d {
        0 => "0",
        1 => "1",
        2 => "2",
        3 => "3",
        4 => "4",
        5 => "5",
        6 => "6",
        7 => "7",
        8 => "8",
        9 => "9",
        10 => "a",
        11 => "b",
        12 => "c",
        13 => "d",
        14 => "e",
        _ => "f",
    };
    assert(r@ =~= seq![hex_digit(d as int)]);
    r
}

/// Writes bytes in hexadecimal.
pub fn hex_text(bytes: &Vec<u8>) -> (r: String)
    ensures
        r@ == hex(bytes@),
{
    let mut out = String::new();
    let mut i: usize = 0;
    while i < bytes.len()
        invariant
            i <= bytes@.len(),
            out@ == hex(bytes@.take(i as int)),
        decreases bytes.len() - i,
    {
        let b = bytes[i];
        out.append(hex_digit_str(b / 16));
        out.append(hex_digit_str(b % 16));
        proof {
            assert(bytes@.take(i + 1).drop_last() =~= bytes@.take(i as int));
            assert(out@ =~= hex(bytes@.take(i + 1)));
        }
        i += 1;
    }
    assert(bytes@.take(i as int) =~= bytes@);
    out
}

proof fn lemma_hex_len(bytes: Seq<u8>)
    ensures
        hex(bytes).len() == 2 * bytes.len(),
    decreases bytes.len(),
{
    if bytes.len() > 0 {
        lemma_hex_len(bytes.drop_last());
    }
}

proof fn lemma_hex_take(bytes: Seq<u8>, n: int)
    requires
        0 <= n <= bytes.len(),
    ensures
        hex(bytes.take(n)) == hex(bytes).take(2 * n),
    decreases bytes.len(),
{
    lemma_hex_len(bytes);
    if n < bytes.len() {
        lemma_hex_take(bytes.drop_last(), n);
        lemma_hex_len(bytes.drop_last());
        assert(bytes.take(n) =~= bytes.drop_last().take(n));
        assert(hex(bytes).take(2 * n) =~= hex(bytes.drop_last()).take(2 * n));
    } else {
        assert(bytes.take(n) =~= bytes);
        assert(hex(bytes).take(2 * n) =~= hex(bytes));
    }
}

/// The fingerprint of a JSON value: the digest of its canonical text, in hexadecimal.
pub open spec fn fingerprint(j: JsonView) -> Chars {
    hex(sha256_digest(encode_utf8(json_text(canonical(j)))))
}

/// The fingerprint of a JSON value, and its first sixteen characters.
pub fn fingerprint_and_id(j: &Json) -> (r: (String, String))
    ensures
        r.0@ == fingerprint(j@),
        r.0@.len() == 64,
        r.1@ == fingerprint(j@).take(16),
{
    let digest = sha256(write_json(&canonicalize(j)).as_str().as_bytes());
    let mut head: Vec<u8> = Vec::new();
    let mut i: usize = 0;
    while i < 8
        invariant
            i <= 8,
            digest@.len() == 32,
            head@ == digest@.take(i as int),
        decreases 8 - i,
    {
        head.push(digest[i]);
        assert(digest@.take(i + 1) =~= digest@.take(i as int).push(digest@[i as int]));
        i += 1;
    }
    proof {
        lemma_hex_len(digest@);
        lemma_hex_take(digest@, 8);
    }
    (hex_text(&digest), hex_text(&head))
}

/// The fingerprint of a value.
pub fn fingerprint_hex<T: ToJson>(value: &T) -> (r: String)
    ensures
        r@ == fingerprint(T::json(value.deep_view())),
        r@.len() == 64,
{
    fingerprint_and_id(&value.to_json()).0
}

// ---------- laws ----------

/// Whether no key occurs twice.
pub open spec fn distinct_keys(members: Seq<(Chars, JsonView)>) -> bool {
    forall|i: int, j: int|
        0 <= i < j < members.len() ==> (#[trigger] members[i]).0 != (#[trigger] members[j]).0
}

/// The canonical members of an object whose keys are distinct.
proof fn lemma_canonical_members(members: Seq<(Chars, JsonView)>)
    requires
        distinct_keys(members),
    ensures
        canonical_members(members).dom().finite(),
        forall|i: int|
            0 <= i < members.len() ==> canonical_members(members).contains_pair(
                (#[trigger] members[i]).0,
                canonical(members[i].1),
            ),
        forall|k: Chars| #[trigger]
            canonical_members(members).dom().contains(k) ==> exists|i: int|
                0 <= i < members.len() && (#[trigger] members[i]).0 == k,
    decreases members.len(),
{
    if members.len() > 0 {
        let init = members.drop_last();
        assert(distinct_keys(init)) by {
            assert forall|i: int, j: int| 0 <= i < j < init.len() implies (#[trigger] init[i]).0
                != (#[trigger] init[j]).0 by {
                assert(members[i].0 != members[j].0);
            }
        }
        lemma_canonical_members(init);
        let m = canonical_members(members);
        let m0 = canonical_members(init);
        assert forall|i: int| 0 <= i < members.len() implies m.contains_pair(
            (#[trigger] members[i]).0,
            canonical(members[i].1),
        ) by {
            if i < init.len() {
                assert(members[i].0 != members[members.len() - 1].0);
                assert(m0.contains_pair(init[i].0, canonical(init[i].1)));
            }
        }
        assert forall|k: Chars| #[trigger] m.dom().contains(k) implies exists|i: int|
            0 <= i < members.len() && (#[trigger] members[i]).0 == k by {
            if k == members.last().0 {
                assert(members[members.len() - 1].0 == k);
            } else {
                assert(m0.dom().contains(k));
                let i = choose|i: int| 0 <= i < init.len() && (#[trigger] init[i]).0 == k;
                assert(members[i].0 == k);
            }
        }
    }
}

/// The order of the members of an object does not count: it has no influence on the
/// canonical form, and so none on the fingerprint.
pub proof fn law_member_order_does_not_count(
    a: Seq<(Chars, JsonView)>,
    b: Seq<(Chars, JsonView)>,
)
    requires
        distinct_keys(a),
        a.to_multiset() == b.to_multiset(),
    ensures
        canonical(JsonView::Object(a)) == canonical(JsonView::Object(b)),
        fingerprint(JsonView::Object(a)) == fingerprint(JsonView::Object(b)),
{
    broadcast use vstd::seq_lib::group_to_multiset_ensures;

    assert(a.no_duplicates()) by {
        assert forall|i: int, j: int| 0 <= i < a.len() && 0 <= j < a.len() && i != j implies a[i]
            != a[j] by {
            if i < j {
                assert(a[i].0 != a[j].0);
            } else {
                assert(a[j].0 != a[i].0);
            }
        }
    }
    a.lemma_multiset_has_no_duplicates();
    b.lemma_multiset_has_no_duplicates_conv();
    assert forall|x: (Chars, JsonView)| #[trigger] a.contains(x) == b.contains(x) by {
        assert(a.contains(x) <==> a.to_multiset().count(x) > 0);
        assert(b.contains(x) <==> b.to_multiset().count(x) > 0);
    }
    assert(distinct_keys(b)) by {
        assert forall|i: int, j: int| 0 <= i < j < b.len() implies (#[trigger] b[i]).0
            != (#[trigger] b[j]).0 by {
            assert(b.contains(b[i]) && b.contains(b[j]));
            assert(a.contains(b[i]) && a.contains(b[j]));
            let x = choose|x: int| 0 <= x < a.len() && a[x] == b[i];
            let y = choose|y: int| 0 <= y < a.len() && a[y] == b[j];
            assert(b[i] != b[j]);
            if x < y {
                assert(a[x].0 != a[y].0);
            } else {
                assert(a[y].0 != a[x].0);
            }
        }
    }
    lemma_canonical_members(a);
    lemma_canonical_members(b);
    let ma = canonical_members(a);
    let mb = canonical_members(b);
    assert forall|k: Chars| ma.dom().contains(k) implies mb.dom().contains(k) && ma[k] == mb[k] by {
        let i = choose|i: int| 0 <= i < a.len() && (#[trigger] a[i]).0 == k;
        assert(a.contains(a[i]));
        assert(b.contains(a[i]));
        let j = choose|j: int| 0 <= j < b.len() && b[j] == a[i];
        assert(ma.contains_pair(a[i].0, canonical(a[i].1)));
        assert(mb.contains_pair(b[j].0, canonical(b[j].1)));
    }
    assert forall|k: Chars| mb.dom().contains(k) implies ma.dom().contains(k) by {
        let i = choose|i: int| 0 <= i < b.len() && (#[trigger] b[i]).0 == k;
        assert(b.contains(b[i]));
        assert(a.contains(b[i]));
        let j = choose|j: int| 0 <= j < a.len() && a[j] == b[i];
        assert(ma.contains_pair(a[j].0, canonical(a[j].1)));
    }
    assert(ma =~= mb);
}

/// Canonical JSON stays as it is when it is brought into canonical form once more.
pub proof fn law_canonical_is_stable(j: JsonView)
    ensures
        canonical(canonical(j)) == canonical(j),
    decreases j,
{
    match j {
        JsonView::Array(items) => {
            lemma_items_stable(items);
        },
        JsonView::Object(members) => {
            let m = canonical_members(members);
            lemma_members_stable(members);
            let sorted = members_of(m);
            lemma_in_order_exists::<String>(m.dom());
            let keys = in_order::<String>(m.dom());
            assert(distinct_keys(sorted)) by {
                assert forall|x: int, y: int| 0 <= x < y < sorted.len() implies (
                #[trigger] sorted[x]).0 != (#[trigger] sorted[y]).0 by {
                    assert(<String as Key>::lt(keys[x], keys[y]));
                    crate::text::lemma_str_lt_irreflexive(keys[x]);
                }
            }
            lemma_canonical_members(sorted);
            let m2 = canonical_members(sorted);
            assert forall|k: Chars| m.dom().contains(k) implies m2.dom().contains(k) && m2[k]
                == m[k] by {
                assert(keys.to_set().contains(k));
                let i = choose|i: int| 0 <= i < keys.len() && keys[i] == k;
                assert(sorted[i].0 == k);
                assert(m2.contains_pair(sorted[i].0, canonical(sorted[i].1)));
                assert(canonical(m[k]) == m[k]);
            }
            assert forall|k: Chars| m2.dom().contains(k) implies m.dom().contains(k) by {
                let i = choose|i: int| 0 <= i < sorted.len() && (#[trigger] sorted[i]).0 == k;
                assert(keys.to_set().contains(keys[i]));
            }
            assert(m2 =~= m);
        },
        _ => {},
    }
}

proof fn lemma_items_stable(items: Seq<JsonView>)
    ensures
        canonical_items(canonical_items(items)) == canonical_items(items),
    decreases items,
{
    if items.len() > 0 {
        lemma_items_stable(items.drop_last());
        law_canonical_is_stable(items.last());
        assert(canonical_items(items).drop_last() =~= canonical_items(items.drop_last()));
    }
}

proof fn lemma_members_stable(members: Seq<(Chars, JsonView)>)
    ensures
        canonical_members(members).dom().finite(),
        forall|k: Chars| #[trigger]
            canonical_members(members).dom().contains(k) ==> canonical(
                canonical_members(members)[k],
            ) == canonical_members(members)[k],
    decreases members,
{
    if members.len() > 0 {
        lemma_members_stable(members.drop_last());
        assert(decreases_to!(members => members.last().1));
        law_canonical_is_stable(members.last().1);
    }
}

proof fn lemma_last_of_key_stays(members: Seq<(Chars, JsonView)>, i: int)
    requires
        0 <= i < members.len(),
        forall|k: int| i < k < members.len() ==> (#[trigger] members[k]).0 != members[i].0,
    ensures
        canonical_members(members).contains_pair(members[i].0, canonical(members[i].1)),
    decreases members.len(),
{
    let init = members.drop_last();
    if i < init.len() {
        assert(members[members.len() - 1].0 != members[i].0);
        assert forall|k: int| i < k < init.len() implies (#[trigger] init[k]).0 != init[i].0 by {
            assert(members[k].0 != members[i].0);
        }
        lemma_last_of_key_stays(init, i);
    }
}

proof fn lemma_no_key_comes_in(members: Seq<(Chars, JsonView)>, key: Chars)
    ensures
        canonical_members(members).dom().finite(),
        canonical_members(members).dom().contains(key) ==> exists|i: int|
            0 <= i < members.len() && (#[trigger] members[i]).0 == key,
    decreases members.len(),
{
    if members.len() > 0 {
        let init = members.drop_last();
        lemma_no_key_comes_in(init, key);
        if canonical_members(members).dom().contains(key) {
            if members.last().0 == key {
                assert(members[members.len() - 1].0 == key);
            } else {
                let i = choose|i: int| 0 <= i < init.len() && (#[trigger] init[i]).0 == key;
                assert(members[i].0 == key);
            }
        }
    }
}

proof fn lemma_canonical_items_at(items: Seq<JsonView>, i: int)
    requires
        0 <= i < items.len(),
    ensures
        canonical_items(items).len() == items.len(),
        canonical_items(items)[i] == canonical(items[i]),
    decreases items.len(),
{
    let init = items.drop_last();
    if i < init.len() {
        lemma_canonical_items_at(init, i);
    } else if init.len() > 0 {
        lemma_canonical_items_at(init, 0);
    } else {
        assert(canonical_items(init).len() == 0);
    }
}

/// The canonical form holds what the value holds. An object keeps the last member of each
/// key, gains none and has them in ascending order; an array keeps its items in their places.
pub proof fn law_canonical_form_keeps_content(
    members: Seq<(Chars, JsonView)>,
    items: Seq<JsonView>,
    i: int,
    key: Chars,
)
    ensures
        ({
            let j = canonical(JsonView::Object(members));
            &&& j is Object
            &&& (0 <= i < members.len() && forall|k: int|
                i < k < members.len() ==> (#[trigger] members[k]).0 != members[i].0)
                ==> crate::json::has_member(j, members[i].0, canonical(members[i].1))
            &&& (forall|k: int| 0 <= k < members.len() ==> (#[trigger] members[k]).0 != key)
                ==> forall|k: int|
                0 <= k < j->Object_0.len() ==> (#[trigger] j->Object_0[k]).0 != key
            &&& forall|a: int, b: int|
                0 <= a < b < j->Object_0.len() ==> crate::text::str_lt(
                    (#[trigger] j->Object_0[a]).0,
                    (#[trigger] j->Object_0[b]).0,
                )
        }),
        canonical(JsonView::Array(items)) is Array,
        0 <= i < items.len() ==> {
            &&& canonical(JsonView::Array(items))->Array_0.len() == items.len()
            &&& canonical(JsonView::Array(items))->Array_0[i] == canonical(items[i])
        },
{
    let m = canonical_members(members);
    let j = canonical(JsonView::Object(members));
    lemma_no_key_comes_in(members, key);
    lemma_in_order_exists::<String>(m.dom());
    let keys = in_order::<String>(m.dom());
    assert(j->Object_0 == keys.map_values(|k: Chars| (k, m[k])));
    assert(keys.to_set() == m.dom());
    if 0 <= i < members.len() && forall|k: int|
        i < k < members.len() ==> (#[trigger] members[k]).0 != members[i].0 {
        lemma_last_of_key_stays(members, i);
        assert(keys.to_set().contains(members[i].0));
        let at = choose|at: int| 0 <= at < keys.len() && keys[at] == members[i].0;
        assert(j->Object_0[at] == (members[i].0, canonical(members[i].1)));
    }
    if forall|k: int| 0 <= k < members.len() ==> (#[trigger] members[k]).0 != key {
        assert forall|k: int| 0 <= k < j->Object_0.len() implies (#[trigger] j->Object_0[k]).0
            != key by {
            assert(keys.to_set().contains(keys[k]));
        }
    }
    if 0 <= i < items.len() {
        lemma_canonical_items_at(items, i);
    }
}

/// The value of a hexadecimal digit.
pub open spec fn hex_value(c: char) -> int {
    if c <= '9' {
        c as int - '0' as int
    } else {
        c as int - 'a' as int + 10
    }
}

/// Hexadecimal text reads back as the bytes: two digits for each, the higher one first.
pub proof fn law_hex_reads_back(bytes: Seq<u8>, i: int)
    requires
        0 <= i < bytes.len(),
    ensures
        hex(bytes).len() == 2 * bytes.len(),
        bytes[i] == 16 * hex_value(hex(bytes)[2 * i]) + hex_value(hex(bytes)[2 * i + 1]),
    decreases bytes.len(),
{
    let init = bytes.drop_last();
    lemma_hex_len(bytes);
    lemma_hex_len(init);
    if i < init.len() {
        law_hex_reads_back(init, i);
    } else {
        let b = bytes.last() as int;
        assert(hex(bytes)[2 * i] == hex_digit(b / 16));
        assert(hex(bytes)[2 * i + 1] == hex_digit(b % 16));
        assert(0 <= b / 16 < 16);
    }
}

} // verus!
