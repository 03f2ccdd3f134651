//! JSON trees: their compact text and their canonical form.

use crate::ordmap::{in_order, OrdMap};
use crate::text::{
    bool_name, bool_str, decimal, hex_digit, i64_text, join, join_strs, u64_text, Chars,
};
use vstd::prelude::*;

verus! {

/// A JSON value. A number is kept as its text, an object as its members in order.
#[derive(Debug)]
pub enum Json {
    Null,
    Bool(bool),
    Number(String),
    Text(String),
    Array(Vec<Json>),
    Object(Vec<(String, Json)>),
}

/// What a JSON value holds.
pub enum JsonView {
    Null,
    Bool(bool),
    Number(Chars),
    Text(Chars),
    Array(Seq<JsonView>),
    Object(Seq<(Chars, JsonView)>),
}

impl DeepView for Json {
    type V = JsonView;

    open spec fn deep_view(&self) -> JsonView {
        json_view(*self)
    }
}

impl View for Json {
    type V = JsonView;

    open spec fn view(&self) -> JsonView {
        json_view(*self)
    }
}

pub open spec fn json_view(j: Json) -> JsonView
    decreases j,
{
    match j {
        Json::Null => JsonView::Null,
        Json::Bool(b) => JsonView::Bool(b),
        Json::Number(s) => JsonView::Number(s@),
        Json::Text(s) => JsonView::Text(s@),
        Json::Array(items) => JsonView::Array(
            Seq::new(
                items@.len(),
                |i: int|
                    if 0 <= i < items@.len() {
                        json_view(items@[i])
                    } else {
                        JsonView::Null
                    },
            ),
        ),
        Json::Object(members) => JsonView::Object(
            Seq::new(
                members@.len(),
                |i: int|
                    if 0 <= i < members@.len() {
                        (members@[i].0@, json_view(members@[i].1))
                    } else {
                        (Seq::empty(), JsonView::Null)
                    },
            ),
        ),
    }
}

/// A character inside a JSON string: the double quote, the backslash and the control
/// characters below the space are escaped, every other one stands for itself.
pub open spec fn json_char(c: char) -> Chars {
    if c == '"' {
        seq!['\\', '"']
    } else if c == '\\' {
        seq!['\\', '\\']
    } else if c == '\u{8}' {
        seq!['\\', 'b']
    } else if c == '\t' {
        seq!['\\', 't']
    } else if c == '\n' {
        seq!['\\', 'n']
    } else if c == '\u{c}' {
        seq!['\\', 'f']
    } else if c == '\r' {
        seq!['\\', 'r']
    } else if 0x1f >= c as int {
        seq!['\\', 'u', '0', '0', hex_digit(c as int / 16), hex_digit(c as int % 16)]
    } else {
        seq![c]
    }
}

/// The characters of a string inside a JSON string.
pub open spec fn json_escaped(s: Chars) -> Chars
    decreases s.len(),
{
    if s.len() == 0 {
        Seq::empty()
    } else {
        json_escaped(s.drop_last()) + json_char(s.last())
    }
}

/// The text of a string as JSON: in double quotes, escaped.
pub open spec fn json_quoted(s: Chars) -> Chars {
    seq!['"'] + json_escaped(s) + seq!['"']
}

/// Calls `serde_json::to_string` on a string, which cannot fail. Claims that it puts the
/// string in double quotes and escapes the double quote, the backslash and the control
/// characters below the space, with the short form where JSON has one and else with
/// `\u00` and two lower-case hexadecimal digits.
#[verifier::external_body]
fn json_quote(s: &str) -> (r: String)
    ensures
        r@ == json_quoted(s@),
{
    serde_json::to_string(s).unwrap_or_default()
}

/// The compact text of a JSON value: no whitespace, members in order.
pub open spec fn json_text(j: JsonView) -> Chars
    decreases j,
{
    match j {
        JsonView::Null => "null"@,
        JsonView::Bool(b) => bool_name(b),
        JsonView::Number(s) => s,
        JsonView::Text(s) => json_quoted(s),
        JsonView::Array(items) => "["@ + join(item_texts(items), ","@) + "]"@,
        JsonView::Object(members) => "{"@ + join(member_texts(members), ","@) + "}"@,
    }
}

/// The texts of the items of an array.
pub open spec fn item_texts(items: Seq<JsonView>) -> Seq<Chars>
    decreases items,
{
    if items.len() == 0 {
        Seq::empty()
    } else {
        item_texts(items.drop_last()).push(json_text(items.last()))
    }
}

/// The texts of the members of an object, each its key and its value.
pub open spec fn member_texts(members: Seq<(Chars, JsonView)>) -> Seq<Chars>
    decreases members,
{
    if members.len() == 0 {
        Seq::empty()
    } else {
        member_texts(members.drop_last()).push(
            json_quoted(members.last().0) + ":"@ + json_text(members.last().1),
        )
    }
}

/// Writes a JSON value as compact text.
pub fn write_json(j: &Json) -> (r: String)
    ensures
        r@ == json_text(j@),
    decreases j,
{
    match j {
        Json::Null => "null".to_owned(),
        Json::Bool(b) => bool_str(*b).to_owned(),
        Json::Number(s) => s.clone(),
        Json::Text(s) => json_quote(s.as_str()),
        Json::Array(items) => {
            let mut parts: Vec<String> = Vec::new();
            let mut i: usize = 0;
            let ghost views = j@->Array_0;
            assert(views.take(0) =~= Seq::empty());
            assert(parts.deep_view() =~= Seq::empty());
            while i < items.len()
                invariant
                    i <= items@.len(),
                    *j == Json::Array(*items),
                    views == j@->Array_0,
                    parts.deep_view() == item_texts(views.take(i as int)),
                decreases items.len() - i,
            {
                assert(decreases_to!(*j => items@[i as int]));
                let ghost before = parts.deep_view();
                parts.push(write_json(&items[i]));
                proof {
                    assert(views.take(i + 1).drop_last() =~= views.take(i as int));
                    assert(views.take(i + 1).last() == items@[i as int]@);
                    assert(parts.deep_view() =~= before.push(json_text(items@[i as int]@)));
                }
                i += 1;
            }
            assert(views.take(i as int) =~= views);
            "[".to_owned().concat(join_strs(&parts, ",").as_str()).concat("]")
        },
        Json::Object(members) => {
            let mut parts: Vec<String> = Vec::new();
            let mut i: usize = 0;
            let ghost views = j@->Object_0;
            assert(views.take(0) =~= Seq::empty());
            assert(parts.deep_view() =~= Seq::empty());
            while i < members.len()
                invariant
                    i <= members@.len(),
                    *j == Json::Object(*members),
                    views == j@->Object_0,
                    parts.deep_view() == member_texts(views.take(i as int)),
                decreases members.len() - i,
            {
                assert(decreases_to!(*j => members@[i as int].1));
                let ghost before = parts.deep_view();
                let value = write_json(&members[i].1);
                let part = json_quote(members[i].0.as_str()).concat(":").concat(value.as_str());
                parts.push(part);
                proof {
                    assert(views.take(i + 1).drop_last() =~= views.take(i as int));
                    assert(views.take(i + 1).last() == (
                        members@[i as int].0@,
                        members@[i as int].1@,
                    ));
                    assert(parts.deep_view() =~= before.push(part@));
                }
                i += 1;
            }
            assert(views.take(i as int) =~= views);
            "{".to_owned().concat(join_strs(&parts, ",").as_str()).concat("}")
        },
    }
}

// ---------- encoding ----------

/// A value that can be written as JSON.
pub trait ToJson: DeepView + Sized {
    /// The JSON that stands for a value.
    spec fn json(v: Self::V) -> JsonView;

    fn to_json(&self) -> (r: Json)
        ensures
            r@ == Self::json(self.deep_view()),
    ;
}

impl ToJson for String {
    open spec fn json(v: Chars) -> JsonView {
        JsonView::Text(v)
    }

    fn to_json(&self) -> (r: Json) {
        Json::Text(self.clone())
    }
}

impl ToJson for bool {
    open spec fn json(v: bool) -> JsonView {
        JsonView::Bool(v)
    }

    fn to_json(&self) -> (r: Json) {
        Json::Bool(*self)
    }
}

impl ToJson for u32 {
    open spec fn json(v: u32) -> JsonView {
        JsonView::Number(decimal(v as int))
    }

    fn to_json(&self) -> (r: Json) {
        Json::Number(u64_text(*self as u64))
    }
}

impl ToJson for u64 {
    open spec fn json(v: u64) -> JsonView {
        JsonView::Number(decimal(v as int))
    }

    fn to_json(&self) -> (r: Json) {
        Json::Number(u64_text(*self))
    }
}

impl ToJson for usize {
    open spec fn json(v: usize) -> JsonView {
        JsonView::Number(decimal(v as int))
    }

    fn to_json(&self) -> (r: Json) {
        Json::Number(u64_text(*self as u64))
    }
}

impl ToJson for i64 {
    open spec fn json(v: i64) -> JsonView {
        JsonView::Number(decimal(v as int))
    }

    fn to_json(&self) -> (r: Json) {
        Json::Number(i64_text(*self))
    }
}

impl<T: ToJson> ToJson for Option<T> {
    open spec fn json(v: Option<T::V>) -> JsonView {
        match v {
            Some(x) => T::json(x),
            None => JsonView::Null,
        }
    }

    fn to_json(&self) -> (r: Json) {
        match self {
            Some(x) => x.to_json(),
            None => Json::Null,
        }
    }
}

impl<T: ToJson> ToJson for Vec<T> {
    open spec fn json(v: Seq<T::V>) -> JsonView {
        JsonView::Array(v.map_values(|x: T::V| T::json(x)))
    }

    fn to_json(&self) -> (r: Json) {
        let mut items: Vec<Json> = Vec::new();
        let mut i: usize = 0;
        while i < self.len()
            invariant
                i <= self@.len(),
                items@.len() == i,
                forall|k: int|
                    0 <= k < i ==> (#[trigger] items@[k])@ == T::json(self@[k].deep_view()),
            decreases self.len() - i,
        {
            items.push(self[i].to_json());
            i += 1;
        }
        let r = Json::Array(items);
        assert(r@->Array_0 =~= self.deep_view().map_values(|x: T::V| T::json(x)));
        r
    }
}

impl<T: ToJson> ToJson for OrdMap<String, T> {
    open spec fn json(v: Map<Chars, T::V>) -> JsonView {
        JsonView::Object(
            in_order::<String>(v.dom()).map_values(|k: Chars| (k, T::json(v[k]))),
        )
    }

    fn to_json(&self) -> (r: Json) {
        let ghost keys = in_order::<String>(self@.dom());
        let mut members: Vec<(String, Json)> = Vec::new();
        let n = self.len();
        let mut i: usize = 0;
        while i < n
            invariant
                i <= n,
                n == keys.len(),
                keys == in_order::<String>(self@.dom()),
                members@.len() == i,
                forall|k: int|
                    0 <= k < i ==> {
                        &&& (#[trigger] members@[k]).0@ == keys[k]
                        &&& members@[k].1@ == T::json(self@[keys[k]])
                    },
            decreases n - i,
        {
            members.push((self.key_at(i).clone(), self.value_at(i).to_json()));
            i += 1;
        }
        let r = Json::Object(members);
        assert(r@->Object_0 =~= keys.map_values(|k: Chars| (k, T::json(self@[k]))));
        r
    }
}

/// The members of an object under construction.
pub struct Members {
    list: Vec<(String, Json)>,
}

impl View for Members {
    type V = Seq<(Chars, JsonView)>;

    closed spec fn view(&self) -> Seq<(Chars, JsonView)> {
        Seq::new(self.list@.len(), |i: int| (self.list@[i].0@, self.list@[i].1@))
    }
}

/// The members with one more, if there is a value for it.
pub open spec fn with_some<T: ToJson>(
    members: Seq<(Chars, JsonView)>,
    key: Chars,
    v: Option<T::V>,
) -> Seq<(Chars, JsonView)> {
    match v {
        Some(x) => members.push((key, T::json(x))),
        None => members,
    }
}

/// The members with one more, if its list is not empty.
pub open spec fn with_items<T: ToJson>(
    members: Seq<(Chars, JsonView)>,
    key: Chars,
    v: Seq<T::V>,
) -> Seq<(Chars, JsonView)> {
    if v.len() > 0 {
        members.push((key, Vec::<T>::json(v)))
    } else {
        members
    }
}

impl Members {
    pub fn new() -> (r: Members)
        ensures
            r@ == Seq::<(Chars, JsonView)>::empty(),
    {
        let r = Members { list: Vec::new() };
        assert(r@ =~= Seq::empty());
        r
    }

    /// Adds a member.
    pub fn put<T: ToJson>(&mut self, key: &str, value: &T)
        ensures
            final(self)@ == old(self)@.push((key@, T::json(value.deep_view()))),
    {
        let ghost before = self@;
        self.list.push((key.to_owned(), value.to_json()));
        assert(self@ =~= before.push((key@, T::json(value.deep_view()))));
    }

    /// Adds a member whose JSON is already there.
    pub fn put_json(&mut self, key: &str, value: Json)
        ensures
            final(self)@ == old(self)@.push((key@, value@)),
    {
        let ghost before = self@;
        self.list.push((key.to_owned(), value));
        assert(self@ =~= before.push((key@, value@)));
    }

    /// Adds a member if there is a value for it.
    pub fn put_some<T: ToJson>(&mut self, key: &str, value: &Option<T>)
        ensures
            final(self)@ == with_some::<T>(old(self)@, key@, value.deep_view()),
    {
        match value {
            Some(x) => self.put(key, x),
            None => {},
        }
    }

    /// Adds a member if its list is not empty.
    pub fn put_items<T: ToJson>(&mut self, key: &str, value: &Vec<T>)
        ensures
            final(self)@ == with_items::<T>(old(self)@, key@, value.deep_view()),
    {
        if value.len() > 0 {
            self.put(key, value);
        }
    }

    /// The object with these members.
    pub fn object(self) -> (r: Json)
        ensures
            r@ == JsonView::Object(self@),
    {
        let r = Json::Object(self.list);
        assert(r@->Object_0 =~= self@);
        r
    }
}

// ---------- laws ----------

/// Whether an object has a member.
pub open spec fn has_member(j: JsonView, key: Chars, value: JsonView) -> bool {
    j is Object && j->Object_0.contains((key, value))
}

/// Whether an object has so many members.
pub open spec fn has_size(j: JsonView, n: int) -> bool {
    j is Object && j->Object_0.len() == n
}

/// One for a member that is there, nothing for one that is not.
pub open spec fn counted(present: bool) -> int {
    if present {
        1
    } else {
        0
    }
}

/// Numbers are written in decimal, texts and truth values as they are; what is missing is
/// null.
pub proof fn law_values_are_written<T: ToJson>(
    text: Chars,
    truth: bool,
    small: u32,
    count: u64,
    size: usize,
    number: i64,
    x: T::V,
)
    ensures
        String::json(text) == JsonView::Text(text),
        bool::json(truth) == JsonView::Bool(truth),
        u32::json(small) is Number && crate::text::number_of(u32::json(small)->Number_0) == small,
        u64::json(count) is Number && crate::text::number_of(u64::json(count)->Number_0) == count,
        usize::json(size) is Number && crate::text::number_of(usize::json(size)->Number_0) == size,
        number >= 0 ==> i64::json(number) is Number && crate::text::number_of(
            i64::json(number)->Number_0,
        ) == number,
        number < 0 ==> i64::json(number) is Number && i64::json(number)->Number_0[0] == '-'
            && crate::text::number_of(i64::json(number)->Number_0.drop_first()) == -number,
        Option::<T>::json(Some(x)) == T::json(x),
        Option::<T>::json(None) == JsonView::Null,
{
    crate::text::law_decimal_reads_back(small as int, 0);
    crate::text::law_decimal_reads_back(count as int, 0);
    crate::text::law_decimal_reads_back(size as int, 0);
    crate::text::law_decimal_reads_back(number as int, 0);
}

/// A list is written item by item, in its order.
pub proof fn law_lists_are_written_in_order<T: ToJson>(v: Seq<T::V>, i: int)
    requires
        0 <= i < v.len(),
    ensures
        Vec::<T>::json(v) is Array,
        Vec::<T>::json(v)->Array_0.len() == v.len(),
        Vec::<T>::json(v)->Array_0[i] == T::json(v[i]),
{
}

/// A map is written with one member for each key, in ascending order.
pub proof fn law_maps_are_written_by_key<T: ToJson>(v: Map<Chars, T::V>, key: Chars)
    requires
        v.dom().finite(),
    ensures
        ({
            let j = OrdMap::<String, T>::json(v);
            &&& j is Object
            &&& v.dom().contains(key) ==> has_member(j, key, T::json(v[key]))
            &&& !v.dom().contains(key) ==> forall|i: int|
                0 <= i < j->Object_0.len() ==> (#[trigger] j->Object_0[i]).0 != key
            &&& forall|i: int, k: int|
                0 <= i < k < j->Object_0.len() ==> crate::text::str_lt(
                    (#[trigger] j->Object_0[i]).0,
                    (#[trigger] j->Object_0[k]).0,
                )
        }),
{
    crate::ordmap::lemma_in_order_exists::<String>(v.dom());
    let keys = in_order::<String>(v.dom());
    let members = keys.map_values(|k: Chars| (k, T::json(v[k])));
    assert(OrdMap::<String, T>::json(v)->Object_0 == members);
    assert(keys.to_set() == v.dom());
    if v.dom().contains(key) {
        assert(keys.to_set().contains(key));
        let i = choose|i: int| 0 <= i < keys.len() && keys[i] == key;
        assert(members[i] == (key, T::json(v[key])));
    } else {
        assert forall|i: int| 0 <= i < members.len() implies (#[trigger] members[i]).0 != key by {
            assert(keys.to_set().contains(keys[i]));
        }
    }
}

pub proof fn lemma_with_some<T: ToJson>(m: Seq<(Chars, JsonView)>, key: Chars, v: Option<T::V>)
    ensures
        with_some::<T>(m, key, v).len() == m.len() + counted(v is Some),
        v is Some ==> with_some::<T>(m, key, v).contains((key, T::json(v->0))),
        forall|x: (Chars, JsonView)|
            m.contains(x) ==> #[trigger] with_some::<T>(m, key, v).contains(x),
{
    lemma_pushed(m, (key, T::json(v->0)));
}

pub proof fn lemma_with_items<T: ToJson>(m: Seq<(Chars, JsonView)>, key: Chars, v: Seq<T::V>)
    ensures
        with_items::<T>(m, key, v).len() == m.len() + counted(v.len() > 0),
        v.len() > 0 ==> with_items::<T>(m, key, v).contains((key, Vec::<T>::json(v))),
        forall|x: (Chars, JsonView)|
            m.contains(x) ==> #[trigger] with_items::<T>(m, key, v).contains(x),
{
    lemma_pushed(m, (key, Vec::<T>::json(v)));
}

pub proof fn lemma_pushed(m: Seq<(Chars, JsonView)>, y: (Chars, JsonView))
    ensures
        m.push(y).contains(y),
        forall|x: (Chars, JsonView)| m.contains(x) ==> #[trigger] m.push(y).contains(x),
{
    assert(m.push(y)[m.len() as int] == y);
    assert forall|x: (Chars, JsonView)| m.contains(x) implies #[trigger] m.push(y).contains(x) by {
        let i = choose|i: int| 0 <= i < m.len() && m[i] == x;
        assert(m.push(y)[i] == x);
    }
}

} // verus!
