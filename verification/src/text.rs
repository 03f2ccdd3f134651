//! Text: byte-wise order of strings, decimal numbers, joining and sorting.

use vstd::prelude::*;
use vstd::relations::{sorted_by, total_ordering};
use vstd::utf8::encode_utf8;

verus! {

/// The contents of a string.
pub type Chars = Seq<char>;

// ---------- order ----------

/// Lexicographic order of byte strings.
pub open spec fn bytes_lt(a: Seq<u8>, b: Seq<u8>) -> bool
    decreases a.len(),
{
    if b.len() == 0 {
        false
    } else if a.len() == 0 {
        true
    } else if a[0] != b[0] {
        a[0] < b[0]
    } else {
        bytes_lt(a.drop_first(), b.drop_first())
    }
}

/// Strings are ordered by their UTF-8 bytes.
pub open spec fn str_lt(a: Chars, b: Chars) -> bool {
    bytes_lt(encode_utf8(a), encode_utf8(b))
}

pub open spec fn str_le(a: Chars, b: Chars) -> bool {
    a == b || str_lt(a, b)
}

proof fn lemma_bytes_lt_irreflexive(a: Seq<u8>)
    ensures
        !bytes_lt(a, a),
    decreases a.len(),
{
    if a.len() > 0 {
        lemma_bytes_lt_irreflexive(a.drop_first());
    }
}

proof fn lemma_bytes_lt_transitive(a: Seq<u8>, b: Seq<u8>, c: Seq<u8>)
    requires
        bytes_lt(a, b),
        bytes_lt(b, c),
    ensures
        bytes_lt(a, c),
    decreases a.len(),
{
    if a.len() > 0 && a[0] == b[0] && b[0] == c[0] {
        lemma_bytes_lt_transitive(a.drop_first(), b.drop_first(), c.drop_first());
    }
}

proof fn lemma_bytes_lt_connected(a: Seq<u8>, b: Seq<u8>)
    requires
        a != b,
    ensures
        bytes_lt(a, b) || bytes_lt(b, a),
    decreases a.len(),
{
    if a.len() > 0 && b.len() > 0 && a[0] == b[0] {
        assert(a.drop_first() != b.drop_first()) by {
            assert(a =~= seq![a[0]] + a.drop_first());
            assert(b =~= seq![b[0]] + b.drop_first());
        }
        lemma_bytes_lt_connected(a.drop_first(), b.drop_first());
    } else {
        assert(a.len() == 0 && b.len() == 0 ==> a =~= b);
    }
}

/// Equal UTF-8 bytes mean equal strings.
pub proof fn lemma_utf8_injective(a: Chars, b: Chars)
    requires
        encode_utf8(a) == encode_utf8(b),
    ensures
        a == b,
{
    vstd::utf8::encode_utf8_decode_utf8(a);
    vstd::utf8::encode_utf8_decode_utf8(b);
}

/// The order of strings is a strict total order.
pub proof fn lemma_str_lt_irreflexive(a: Chars)
    ensures
        !str_lt(a, a),
{
    lemma_bytes_lt_irreflexive(encode_utf8(a));
}

pub proof fn lemma_str_lt_transitive(a: Chars, b: Chars, c: Chars)
    requires
        str_lt(a, b),
        str_lt(b, c),
    ensures
        str_lt(a, c),
{
    lemma_bytes_lt_transitive(encode_utf8(a), encode_utf8(b), encode_utf8(c));
}

pub proof fn lemma_str_lt_connected(a: Chars, b: Chars)
    requires
        a != b,
    ensures
        str_lt(a, b) || str_lt(b, a),
{
    if encode_utf8(a) == encode_utf8(b) {
        lemma_utf8_injective(a, b);
    }
    lemma_bytes_lt_connected(encode_utf8(a), encode_utf8(b));
}

/// The order of strings as a relation that sequences can be sorted by.
pub open spec fn str_order() -> spec_fn(Chars, Chars) -> bool {
    |a: Chars, b: Chars| str_le(a, b)
}

pub proof fn lemma_str_order_total()
    ensures
        total_ordering(str_order()),
{
    let r = str_order();
    assert forall|x: Chars, y: Chars| #[trigger] r(x, y) && #[trigger] r(y, x) implies x == y by {
        if x != y {
            lemma_str_lt_transitive(x, y, x);
            lemma_str_lt_irreflexive(x);
        }
    }
    assert forall|x: Chars, y: Chars, z: Chars| #[trigger]
        r(x, y) && #[trigger] r(y, z) implies r(x, z) by {
        if x != y && y != z {
            lemma_str_lt_transitive(x, y, z);
        }
    }
    assert forall|x: Chars, y: Chars| #[trigger] r(x, y) || #[trigger] r(y, x) by {
        if x != y {
            lemma_str_lt_connected(x, y);
        }
    }
}

fn bytes_less(a: &[u8], b: &[u8]) -> (r: bool)
    ensures
        r == bytes_lt(a@, b@),
{
    let mut i: usize = 0;
    assert(a@.skip(0) =~= a@ && b@.skip(0) =~= b@);
    while i < a.len() && i < b.len()
        invariant
            i <= a@.len(),
            i <= b@.len(),
            bytes_lt(a@, b@) == bytes_lt(a@.skip(i as int), b@.skip(i as int)),
        decreases a.len() - i,
    {
        if a[i] != b[i] {
            return a[i] < b[i];
        }
        assert(a@.skip(i as int).drop_first() =~= a@.skip(i + 1));
        assert(b@.skip(i as int).drop_first() =~= b@.skip(i + 1));
        i += 1;
    }
    i < b.len()
}

/// Whether `a` comes before `b`.
pub fn str_less(a: &str, b: &str) -> (r: bool)
    ensures
        r == str_lt(a@, b@),
{
    bytes_less(a.as_bytes(), b.as_bytes())
}

/// Whether two strings hold the same text.
pub fn str_eq(a: &str, b: &str) -> (r: bool)
    ensures
        r == (a@ == b@),
{
    let x = a.as_bytes();
    let y = b.as_bytes();
    if x.len() != y.len() {
        return false;
    }
    let mut i: usize = 0;
    while i < x.len()
        invariant
            i <= x@.len(),
            x@.len() == y@.len(),
            x@ == encode_utf8(a@),
            y@ == encode_utf8(b@),
            forall|j: int| 0 <= j < i ==> x@[j] == y@[j],
        decreases x.len() - i,
    {
        if x[i] != y[i] {
            return false;
        }
        i += 1;
    }
    proof {
        assert(x@ =~= y@);
        lemma_utf8_injective(a@, b@);
    }
    true
}

/// Whether a string occurs in a list.
pub fn strs_contain(list: &Vec<String>, s: &str) -> (r: bool)
    ensures
        r == list.deep_view().contains(s@),
{
    let mut i: usize = 0;
    while i < list.len()
        invariant
            i <= list@.len(),
            forall|j: int| 0 <= j < i ==> list@[j]@ != s@,
        decreases list.len() - i,
    {
        if str_eq(list[i].as_str(), s) {
            assert(list.deep_view()[i as int] == s@);
            return true;
        }
        i += 1;
    }
    false
}

// ---------- sorting ----------

/// A list of strings in ascending order.
pub open spec fn sorted(list: Seq<Chars>) -> Seq<Chars> {
    list.sort_by(str_order())
}

/// Sorts a list of strings.
pub fn sort_strs(list: Vec<String>) -> (r: Vec<String>)
    ensures
        r.deep_view() == sorted(list.deep_view()),
{
    let mut out: Vec<String> = Vec::new();
    let mut i: usize = 0;
    proof {
        lemma_str_order_total();
        assert(out.deep_view() =~= list.deep_view().take(0));
    }
    while i < list.len()
        invariant
            i <= list@.len(),
            out@.len() == i,
            total_ordering(str_order()),
            sorted_by(out.deep_view(), str_order()),
            out.deep_view().to_multiset() =~= list.deep_view().take(i as int).to_multiset(),
        decreases list.len() - i,
    {
        let s = list[i].clone();
        let ghost before = out.deep_view();
        let mut k: usize = 0;
        while k < out.len() && !str_less(s.as_str(), out[k].as_str())
            invariant
                k <= out@.len(),
                forall|j: int| 0 <= j < k ==> !str_lt(s@, #[trigger] out@[j]@),
            decreases out.len() - k,
        {
            k += 1;
        }
        out.insert(k, s);
        proof {
            assert(out.deep_view() =~= before.insert(k as int, s@));
            let r = str_order();
            assert forall|x: int, y: int| 0 <= x < y < out.deep_view().len() implies #[trigger] r(
                out.deep_view()[x],
                out.deep_view()[y],
            ) by {
                let a = out.deep_view()[x];
                let b = out.deep_view()[y];
                if y == k {
                    assert(a == before[x]);
                    assert(r(a, s@) || r(s@, a));
                } else if x == k {
                    assert(r(s@, before[k as int]));
                    if y > k + 1 {
                        assert(r(before[k as int], before[y - 1]));
                    }
                } else {
                    let x0 = if x < k { x } else { x - 1 };
                    let y0 = if y < k { y } else { y - 1 };
                    assert(r(before[x0], before[y0]));
                }
            }
            before.insert_ensures(k as int, s@);
            vstd::seq_lib::to_multiset_insert(before, k as int, s@);
            let t = list.deep_view().take(i as int);
            assert(list.deep_view().take(i + 1) =~= t.push(s@));
            vstd::seq_lib::to_multiset_build(t, s@);
        }
        i += 1;
    }
    proof {
        assert(list.deep_view().take(i as int) =~= list.deep_view());
        list.deep_view().lemma_sort_by_ensures(str_order());
        vstd::seq_lib::lemma_sorted_unique(out.deep_view(), sorted(list.deep_view()), str_order());
    }
    out
}

// ---------- numbers ----------

/// The character of a decimal digit.
pub open spec fn digit(d: int) -> char {
    if d == 0 {
        '0'
    } else if d == 1 {
        '1'
    } else if d == 2 {
        '2'
    } else if d == 3 {
        '3'
    } else if d == 4 {
        '4'
    } else if d == 5 {
        '5'
    } else if d == 6 {
        '6'
    } else if d == 7 {
        '7'
    } else if d == 8 {
        '8'
    } else {
        '9'
    }
}

/// The character of a hexadecimal digit.
pub open spec fn hex_digit(d: int) -> char {
    if d < 10 {
        digit(d)
    } else if d == 10 {
        'a'
    } else if d == 11 {
        'b'
    } else if d == 12 {
        'c'
    } else if d == 13 {
        'd'
    } else if d == 14 {
        'e'
    } else {
        'f'
    }
}

/// The decimal digits of a natural number.
pub open spec fn digits(n: int) -> Chars
    decreases n,
{
    if n < 10 {
        seq![digit(n)]
    } else {
        digits(n / 10).push(digit(n % 10))
    }
}

/// The decimal form of an integer.
pub open spec fn decimal(n: int) -> Chars {
    if n < 0 {
        "-"@ + digits(-n)
    } else {
        digits(n)
    }
}

fn digit_str(d: u64) -> (r: &'static str)
    requires
        d < 10,
    ensures
        r@ == seq![digit(d as int)],
{
    proof {
        reveal_strlit("0");
        reveal_strlit("1");
        reveal_strlit("2");
        reveal_strlit("3");
        reveal_strlit("4");
        reveal_strlit("5");
        reveal_strlit("6");
        reveal_strlit("7");
        reveal_strlit("8");
        reveal_strlit("9");
    }
    let r = match d {
        0 => "0",
        1 => "1",
        2 => "2",
        3 => "3",
        4 => "4",
        5 => "5",
        6 => "6",
        7 => "7",
        8 => "8",
        _ => "9",
    };
    assert(r@ =~= seq![digit(d as int)]);
    r
}

/// Writes an unsigned number in decimal.
pub fn u64_text(n: u64) -> (r: String)
    ensures
        r@ == decimal(n as int),
    decreases n,
{
    if n < 10 {
        digit_str(n).to_owned()
    } else {
        let head = u64_text(n / 10);
        let r = head.concat(digit_str(n % 10));
        assert(r@ =~= digits(n as int));
        r
    }
}

/// Writes a length or a count in decimal.
pub fn usize_text(n: usize) -> (r: String)
    ensures
        r@ == decimal(n as int),
{
    u64_text(n as u64)
}

/// Writes a signed number in decimal.
pub fn i64_text(n: i64) -> (r: String)
    ensures
        r@ == decimal(n as int),
{
    if n < 0 {
        let size: u64 = (-(n + 1)) as u64 + 1;
        "-".to_owned().concat(u64_text(size).as_str())
    } else {
        u64_text(n as u64)
    }
}

// ---------- joining ----------

/// The parts one after another, with `sep` between two of them.
pub open spec fn join(parts: Seq<Chars>, sep: Chars) -> Chars
    decreases parts.len(),
{
    if parts.len() == 0 {
        Seq::empty()
    } else if parts.len() == 1 {
        parts[0]
    } else {
        join(parts.drop_last(), sep) + sep + parts.last()
    }
}

/// Joins strings with a separator.
pub fn join_strs(parts: &Vec<String>, sep: &str) -> (r: String)
    ensures
        r@ == join(parts.deep_view(), sep@),
{
    let mut out = String::new();
    let mut i: usize = 0;
    let ghost all = parts.deep_view();
    while i < parts.len()
        invariant
            i <= parts@.len(),
            all == parts.deep_view(),
            out@ == join(all.take(i as int), sep@),
        decreases parts.len() - i,
    {
        if i > 0 {
            out.append(sep);
        }
        out.append(parts[i].as_str());
        proof {
            assert(all.take(i + 1).drop_last() =~= all.take(i as int));
            assert(out@ =~= join(all.take(i + 1), sep@));
        }
        i += 1;
    }
    assert(all.take(i as int) =~= all);
    out
}

/// The decimal forms of a list of numbers.
pub open spec fn decimals(list: Seq<u32>) -> Seq<Chars> {
    list.map_values(|n: u32| decimal(n as int))
}

/// Writes each number of a list in decimal.
pub fn u32_texts(list: &Vec<u32>) -> (r: Vec<String>)
    ensures
        r.deep_view() == decimals(list@),
{
    let mut out: Vec<String> = Vec::new();
    let mut i: usize = 0;
    while i < list.len()
        invariant
            i <= list@.len(),
            out@.len() == i,
            forall|j: int| 0 <= j < i ==> (#[trigger] out@[j])@ == decimal(list@[j] as int),
        decreases list.len() - i,
    {
        out.push(u64_text(list[i] as u64));
        i += 1;
    }
    assert(out.deep_view() =~= decimals(list@));
    out
}

// ---------- debugging form ----------

/// The text in brackets with a comma and a space between two parts.
pub open spec fn bracketed(parts: Seq<Chars>) -> Chars {
    "["@ + join(parts, ", "@) + "]"@
}

/// Writes a list in brackets.
pub fn bracket(parts: &Vec<String>) -> (r: String)
    ensures
        r@ == bracketed(parts.deep_view()),
{
    "[".to_owned().concat(join_strs(parts, ", ").as_str()).concat("]")
}

/// What the debugging form of a string is: quoted, with its special characters escaped.
pub uninterp spec fn quoted(s: Chars) -> Chars;

/// Calls the formatting of std with `{:?}` on a string. Claims that the text it gives
/// is determined by the string; how each character is escaped is not stated.
#[verifier::external_body]
fn quote(s: &str) -> (r: String)
    ensures
        r@ == quoted(s@),
{
    format!("{:?}", s)
}

/// The debugging form of a list of strings.
pub open spec fn quoted_list(list: Seq<Chars>) -> Chars {
    bracketed(list.map_values(|s: Chars| quoted(s)))
}

/// Writes a list of strings in its debugging form.
pub fn quote_list(list: &Vec<String>) -> (r: String)
    ensures
        r@ == quoted_list(list.deep_view()),
{
    let mut parts: Vec<String> = Vec::new();
    let mut i: usize = 0;
    while i < list.len()
        invariant
            i <= list@.len(),
            parts@.len() == i,
            forall|j: int| 0 <= j < i ==> (#[trigger] parts@[j])@ == quoted(list@[j]@),
        decreases list.len() - i,
    {
        parts.push(quote(list[i].as_str()));
        i += 1;
    }
    assert(parts.deep_view() =~= list.deep_view().map_values(|s: Chars| quoted(s)));
    bracket(&parts)
}

/// The name of a truth value.
pub open spec fn bool_name(b: bool) -> Chars {
    if b {
        "true"@
    } else {
        "false"@
    }
}

pub fn bool_str(b: bool) -> (r: &'static str)
    ensures
        r@ == bool_name(b),
{
    if b {
        "true"
    } else {
        "false"
    }
}

// ---------- laws ----------

/// Byte strings are ordered by the first byte in which they differ; one that continues the
/// other comes behind it.
pub proof fn law_first_difference_decides(a: Seq<u8>, b: Seq<u8>)
    ensures
        bytes_lt(a, b) <==> {
            ||| exists|i: int|
                #![trigger a.take(i)]
                0 <= i < a.len() && i < b.len() && a.take(i) == b.take(i) && a[i] < b[i]
            ||| a.len() < b.len() && a == b.take(a.len() as int)
        },
    decreases a.len(),
{
    if a.len() > 0 && b.len() > 0 {
        let x = a.drop_first();
        let y = b.drop_first();
        law_first_difference_decides(x, y);
        if a[0] == b[0] {
            if bytes_lt(x, y) {
                if x.len() < y.len() && x == y.take(x.len() as int) {
                    assert(a =~= b.take(a.len() as int)) by {
                        assert forall|i: int| 0 <= i < a.len() implies a[i] == b[i] by {
                            if i > 0 {
                                assert(x[i - 1] == y.take(x.len() as int)[i - 1]);
                            }
                        }
                    }
                } else {
                    let i = choose|i: int|
                        #![trigger x.take(i)]
                        0 <= i < x.len() && i < y.len() && x.take(i) == y.take(i) && x[i] < y[i];
                    assert(a.take(i + 1) =~= b.take(i + 1)) by {
                        assert forall|k: int| 0 <= k < i + 1 implies a[k] == b[k] by {
                            if k > 0 {
                                assert(x.take(i)[k - 1] == y.take(i)[k - 1]);
                            }
                        }
                    }
                    assert(a[i + 1] < b[i + 1]);
                }
            }
            if exists|i: int|
                #![trigger a.take(i)]
                0 <= i < a.len() && i < b.len() && a.take(i) == b.take(i) && a[i] < b[i] {
                let i = choose|i: int|
                    #![trigger a.take(i)]
                    0 <= i < a.len() && i < b.len() && a.take(i) == b.take(i) && a[i] < b[i];
                assert(x.take(i - 1) =~= y.take(i - 1)) by {
                    assert forall|k: int| 0 <= k < i - 1 implies x[k] == y[k] by {
                        assert(a.take(i)[k + 1] == b.take(i)[k + 1]);
                    }
                }
                assert(x[i - 1] < y[i - 1]);
            }
            if a.len() < b.len() && a == b.take(a.len() as int) {
                assert(x =~= y.take(x.len() as int));
            }
        } else {
            if a[0] < b[0] {
                assert(a.take(0) =~= b.take(0));
            }
            if exists|i: int|
                #![trigger a.take(i)]
                0 <= i < a.len() && i < b.len() && a.take(i) == b.take(i) && a[i] < b[i] {
                let i = choose|i: int|
                    #![trigger a.take(i)]
                    0 <= i < a.len() && i < b.len() && a.take(i) == b.take(i) && a[i] < b[i];
                if i > 0 {
                    assert(a.take(i)[0] == b.take(i)[0]);
                }
            }
            if a.len() < b.len() && a == b.take(a.len() as int) {
                assert(b.take(a.len() as int)[0] == b[0]);
            }
        }
    } else if a.len() == 0 && b.len() > 0 {
        assert(a =~= b.take(0));
    }
}

/// Sorting keeps all strings, as often as they are there, and puts them in ascending order.
pub proof fn law_sorting_orders_all(list: Seq<Chars>)
    ensures
        sorted(list).to_multiset() == list.to_multiset(),
        forall|i: int, j: int|
            0 <= i < j < sorted(list).len() ==> !str_lt(
                #[trigger] sorted(list)[j],
                #[trigger] sorted(list)[i],
            ),
{
    lemma_str_order_total();
    let r = str_order();
    list.lemma_sort_by_ensures(r);
    let out = sorted(list);
    assert forall|i: int, j: int| 0 <= i < j < out.len() implies !str_lt(
        #[trigger] out[j],
        #[trigger] out[i],
    ) by {
        assert(r(out[i], out[j]));
        lemma_str_lt_irreflexive(out[i]);
        if str_lt(out[j], out[i]) {
            if str_lt(out[i], out[j]) {
                lemma_str_lt_transitive(out[i], out[j], out[i]);
            }
        }
    }
}

/// The number that a row of decimal digits stands for.
pub open spec fn number_of(text: Chars) -> int
    decreases text.len(),
{
    if text.len() == 0 {
        0
    } else {
        10 * number_of(text.drop_last()) + (text.last() as int - '0' as int)
    }
}

proof fn lemma_digits_read_back(n: int)
    requires
        n >= 0,
    ensures
        number_of(digits(n)) == n,
        digits(n).len() > 0,
        digits(n)[0] != '-',
    decreases n,
{
    reveal_with_fuel(number_of, 2);
    if n < 10 {
        assert(digits(n).drop_last() =~= Seq::empty());
        assert(digits(n).last() == digit(n));
    } else {
        lemma_digits_read_back(n / 10);
        let init = digits(n / 10);
        assert(digits(n).drop_last() =~= init);
        assert(digits(n).last() == digit(n % 10));
    }
}

/// The decimal form of a number reads back as that number: its digits as a row, behind a minus
/// sign where it is negative. So no two numbers have the same form.
pub proof fn law_decimal_reads_back(n: int, k: int)
    ensures
        n >= 0 ==> number_of(decimal(n)) == n && decimal(n)[0] != '-',
        n < 0 ==> decimal(n)[0] == '-' && number_of(decimal(n).drop_first()) == -n,
        decimal(n) == decimal(k) ==> n == k,
{
    reveal_strlit("-");
    lemma_digits_read_back(if n < 0 { -n } else { n });
    lemma_digits_read_back(if k < 0 { -k } else { k });
    if n < 0 {
        assert(decimal(n).drop_first() =~= digits(-n));
    }
    if k < 0 {
        assert(decimal(k).drop_first() =~= digits(-k));
    }
}

/// Joined parts stand one after the other, and a separator stands between two of them.
pub proof fn law_join_puts_parts_together(parts: Seq<Chars>, part: Chars, sep: Chars)
    ensures
        join(Seq::empty(), sep) == Seq::<char>::empty(),
        join(seq![part], sep) == part,
        parts.len() > 0 ==> join(parts.push(part), sep) == join(parts, sep) + sep + part,
{
    assert(parts.push(part).drop_last() =~= parts);
}

} // verus!
