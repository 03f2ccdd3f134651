//! Which endpoint a request is for.

use crate::text::{str_eq, Chars};
use vstd::prelude::*;

verus! {

/// The method of a request, as far as it counts.
#[derive(Clone, Copy, Debug, PartialEq, Eq, Structural)]
pub enum HttpMethod {
    Get,
    Post,
    Other,
}

/// What a request asks for. An id names a scenario.
#[derive(Clone, Debug, PartialEq, Eq)]
pub enum Endpoint {
    Index,
    AppJs,
    ListScenarios,
    CreateScenario,
    GetScenario(String),
    Preview(String),
    Commit(String),
    DraftsDiff,
    Health,
    NotFound,
}

/// What an [`Endpoint`] holds.
pub enum EndpointView {
    Index,
    AppJs,
    ListScenarios,
    CreateScenario,
    GetScenario(Chars),
    Preview(Chars),
    Commit(Chars),
    DraftsDiff,
    Health,
    NotFound,
}

impl View for Endpoint {
    type V = EndpointView;

    open spec fn view(&self) -> EndpointView {
        match self {
            Endpoint::Index => EndpointView::Index,
            Endpoint::AppJs => EndpointView::AppJs,
            Endpoint::ListScenarios => EndpointView::ListScenarios,
            Endpoint::CreateScenario => EndpointView::CreateScenario,
            Endpoint::GetScenario(id) => EndpointView::GetScenario(id@),
            Endpoint::Preview(id) => EndpointView::Preview(id@),
            Endpoint::Commit(id) => EndpointView::Commit(id@),
            Endpoint::DraftsDiff => EndpointView::DraftsDiff,
            Endpoint::Health => EndpointView::Health,
            Endpoint::NotFound => EndpointView::NotFound,
        }
    }
}

// ---------- parts of a path ----------

/// Whether a text begins with another.
pub open spec fn begins(s: Chars, part: Chars) -> bool {
    part.len() <= s.len() && s.take(part.len() as int) == part
}

/// Whether a text ends with another.
pub open spec fn ends(s: Chars, part: Chars) -> bool {
    part.len() <= s.len() && s.skip(s.len() - part.len()) == part
}

/// A text without a part, as often as it stands in front.
pub open spec fn without_front(s: Chars, part: Chars) -> Chars
    decreases s.len(),
{
    if part.len() > 0 && begins(s, part) {
        without_front(s.skip(part.len() as int), part)
    } else {
        s
    }
}

/// A text without a part, as often as it stands at the end.
pub open spec fn without_back(s: Chars, part: Chars) -> Chars
    decreases s.len(),
{
    if part.len() > 0 && ends(s, part) {
        without_back(s.take(s.len() - part.len()), part)
    } else {
        s
    }
}

/// What stands before the first occurrence of a character, or all.
pub open spec fn before_char(s: Chars, c: char) -> Chars
    decreases s.len(),
{
    if s.len() == 0 || s[0] == c {
        Seq::empty()
    } else {
        seq![s[0]] + before_char(s.drop_first(), c)
    }
}

/// What stands behind the first occurrence of a character, or nothing.
pub open spec fn after_char(s: Chars, c: char) -> Chars
    decreases s.len(),
{
    if s.len() == 0 {
        Seq::empty()
    } else if s[0] == c {
        s.drop_first()
    } else {
        after_char(s.drop_first(), c)
    }
}

fn part_at(s: &str, from: usize, part: &str) -> (r: bool)
    requires
        from + part@.len() <= s@.len(),
    ensures
        r == (s@.subrange(from as int, from + part@.len()) == part@),
{
    let len = s.unicode_len();
    let n = part.unicode_len();
    let mut i: usize = 0;
    let ghost window = s@.subrange(from as int, from + part@.len());
    while i < n
        invariant
            i <= n,
            n == part@.len(),
            from + n <= len,
            len == s@.len(),
            window == s@.subrange(from as int, from + part@.len()),
            forall|k: int| 0 <= k < i ==> window[k] == part@[k],
        decreases n - i,
    {
        if s.get_char(from + i) != part.get_char(i) {
            assert(window[i as int] != part@[i as int]);
            return false;
        }
        i += 1;
    }
    assert(window =~= part@);
    true
}

fn begins_with(s: &str, part: &str) -> (r: bool)
    ensures
        r == begins(s@, part@),
{
    if part.unicode_len() > s.unicode_len() {
        return false;
    }
    assert(s@.subrange(0, part@.len() as int) =~= s@.take(part@.len() as int));
    part_at(s, 0, part)
}

fn ends_with(s: &str, part: &str) -> (r: bool)
    ensures
        r == ends(s@, part@),
{
    let n = s.unicode_len();
    let m = part.unicode_len();
    if m > n {
        return false;
    }
    assert(s@.subrange(n - m, n as int) =~= s@.skip(n - m));
    part_at(s, n - m, part)
}

fn strip_front<'a>(s: &'a str, part: &str) -> (r: &'a str)
    ensures
        r@ == without_front(s@, part@),
    decreases s@.len(),
{
    let m = part.unicode_len();
    if m > 0 && begins_with(s, part) {
        let rest = s.substring_char(m, s.unicode_len());
        assert(rest@ =~= s@.skip(m as int));
        strip_front(rest, part)
    } else {
        s
    }
}

fn strip_back<'a>(s: &'a str, part: &str) -> (r: &'a str)
    ensures
        r@ == without_back(s@, part@),
    decreases s@.len(),
{
    let m = part.unicode_len();
    if m > 0 && ends_with(s, part) {
        let rest = s.substring_char(0, s.unicode_len() - m);
        assert(rest@ =~= s@.take(s@.len() - m));
        strip_back(rest, part)
    } else {
        s
    }
}

/// Splits a text at the first occurrence of a character.
fn split_at_char<'a>(s: &'a str, c: char) -> (r: (&'a str, &'a str))
    ensures
        r.0@ == before_char(s@, c),
        r.1@ == after_char(s@, c),
{
    let n = s.unicode_len();
    let mut i: usize = 0;
    proof {
        assert(s@.take(0) + before_char(s@.skip(0), c) =~= before_char(s@, c)) by {
            assert(s@.skip(0) =~= s@);
        }
        assert(s@.skip(0) =~= s@);
    }
    while i < n
        invariant
            i <= n,
            n == s@.len(),
            before_char(s@, c) == s@.take(i as int) + before_char(s@.skip(i as int), c),
            after_char(s@, c) == after_char(s@.skip(i as int), c),
        decreases n - i,
    {
        let ghost rest = s@.skip(i as int);
        assert(rest.drop_first() =~= s@.skip(i + 1));
        if s.get_char(i) == c {
            let front = s.substring_char(0, i);
            let back = s.substring_char(i + 1, n);
            assert(front@ =~= before_char(s@, c));
            assert(back@ =~= after_char(s@, c));
            return (front, back);
        }
        assert(s@.take(i + 1) + before_char(s@.skip(i + 1), c) =~= s@.take(i as int)
            + before_char(rest, c));
        i += 1;
    }
    assert(s@.take(n as int) + before_char(s@.skip(n as int), c) =~= s@);
    assert(s@.skip(n as int) =~= Seq::empty());
    let none = s.substring_char(n, n);
    assert(none@ =~= Seq::empty());
    (s, none)
}

// ---------- endpoints ----------

/// The path of a request without its query.
pub open spec fn path_of(url: Chars) -> Chars {
    before_char(url, '?')
}

/// The endpoint of a request.
pub open spec fn endpoint(method: HttpMethod, url: Chars) -> EndpointView {
    let path = path_of(url);
    let below = begins(path, "/api/scenarios/"@);
    let rest = without_front(path, "/api/scenarios/"@);
    match method {
        HttpMethod::Get => if path == "/"@ || path == "/index.html"@ {
            EndpointView::Index
        } else if path == "/app.js"@ {
            EndpointView::AppJs
        } else if path == "/api/scenarios"@ {
            EndpointView::ListScenarios
        } else if below {
            let tail = after_char(rest, '/');
            if tail.len() == 0 || tail == "result"@ {
                EndpointView::GetScenario(before_char(rest, '/'))
            } else {
                EndpointView::NotFound
            }
        } else if path == "/api/health"@ {
            EndpointView::Health
        } else {
            EndpointView::NotFound
        },
        HttpMethod::Post => if path == "/api/scenarios"@ {
            EndpointView::CreateScenario
        } else if below && ends(path, "/preview"@) {
            EndpointView::Preview(without_back(rest, "/preview"@))
        } else if below && ends(path, "/commit"@) {
            EndpointView::Commit(without_back(rest, "/commit"@))
        } else if path == "/api/drafts/diff"@ {
            EndpointView::DraftsDiff
        } else {
            EndpointView::NotFound
        },
        HttpMethod::Other => EndpointView::NotFound,
    }
}

/// Finds the endpoint of a request.
pub fn route(method: HttpMethod, url: &str) -> (r: Endpoint)
    ensures
        r@ == endpoint(method, url@),
{
    let path = split_at_char(url, '?').0;
    let below = begins_with(path, "/api/scenarios/");
    let rest = strip_front(path, "/api/scenarios/");
    match method {
        HttpMethod::Get => if str_eq(path, "/") || str_eq(path, "/index.html") {
            Endpoint::Index
        } else if str_eq(path, "/app.js") {
            Endpoint::AppJs
        } else if str_eq(path, "/api/scenarios") {
            Endpoint::ListScenarios
        } else if below {
            let (id, tail) = split_at_char(rest, '/');
            if tail.is_empty() || str_eq(tail, "result") {
                Endpoint::GetScenario(id.to_owned())
            } else {
                Endpoint::NotFound
            }
        } else if str_eq(path, "/api/health") {
            Endpoint::Health
        } else {
            Endpoint::NotFound
        },
        HttpMethod::Post => if str_eq(path, "/api/scenarios") {
            Endpoint::CreateScenario
        } else if below && ends_with(path, "/preview") {
            Endpoint::Preview(strip_back(rest, "/preview").to_owned())
        } else if below && ends_with(path, "/commit") {
            Endpoint::Commit(strip_back(rest, "/commit").to_owned())
        } else if str_eq(path, "/api/drafts/diff") {
            Endpoint::DraftsDiff
        } else {
            Endpoint::NotFound
        },
        HttpMethod::Other => Endpoint::NotFound,
    }
}

// ---------- laws ----------

proof fn lemma_before_char_absent(s: Chars, c: char)
    requires
        !s.contains(c),
    ensures
        before_char(s, c) == s,
        after_char(s, c) == Seq::<char>::empty(),
    decreases s.len(),
{
    if s.len() > 0 {
        assert(s[0] != c) by {
            assert(s.contains(s[0]));
        }
        let rest = s.drop_first();
        assert(!rest.contains(c)) by {
            if rest.contains(c) {
                let i = choose|i: int| 0 <= i < rest.len() && rest[i] == c;
                assert(s[i + 1] == c);
            }
        }
        lemma_before_char_absent(rest, c);
        assert(seq![s[0]] + rest =~= s);
    } else {
        assert(s =~= Seq::empty());
    }
}

proof fn lemma_split_at_first(a: Chars, b: Chars, c: char)
    requires
        !a.contains(c),
    ensures
        before_char(a + seq![c] + b, c) == a,
        after_char(a + seq![c] + b, c) == b,
    decreases a.len(),
{
    let s = a + seq![c] + b;
    if a.len() == 0 {
        assert(s[0] == c);
        assert(s.drop_first() =~= b);
        assert(a =~= Seq::empty());
    } else {
        assert(a.contains(a[0]));
        let rest = a.drop_first();
        assert(!rest.contains(c)) by {
            if rest.contains(c) {
                let i = choose|i: int| 0 <= i < rest.len() && rest[i] == c;
                assert(a[i + 1] == c);
            }
        }
        lemma_split_at_first(rest, b, c);
        assert(s.drop_first() =~= rest + seq![c] + b);
        assert(seq![a[0]] + rest =~= a);
    }
}

/// Whether a text can stand for a scenario in a path.
pub open spec fn plain_id(id: Chars) -> bool {
    id.len() > 0 && !id.contains('/') && !id.contains('?')
}

proof fn lemma_below(id: Chars, tail: Chars)
    requires
        plain_id(id),
        !tail.contains('?'),
    ensures
        ({
            let url = "/api/scenarios/"@ + id + tail;
            &&& path_of(url) == url
            &&& begins(url, "/api/scenarios/"@)
            &&& without_front(url, "/api/scenarios/"@) == id + tail
            &&& url != "/"@
            &&& url != "/index.html"@
            &&& url != "/app.js"@
            &&& url != "/api/scenarios"@
        }),
{
    reveal_strlit("/api/scenarios/");
    reveal_strlit("/api/scenarios");
    reveal_strlit("/index.html");
    reveal_strlit("/app.js");
    reveal_strlit("/");
    let front = "/api/scenarios/"@;
    let url = front + id + tail;
    assert(!url.contains('?')) by {
        if url.contains('?') {
            let i = choose|i: int| 0 <= i < url.len() && url[i] == '?';
            if i < front.len() {
                assert(front[i] != '?');
            } else if i < front.len() + id.len() {
                assert(id[i - front.len()] == '?');
            } else {
                assert(tail[i - front.len() - id.len()] == '?');
            }
        }
    }
    lemma_before_char_absent(url, '?');
    assert(url.take(front.len() as int) =~= front);
    let rest = id + tail;
    assert(url.skip(front.len() as int) =~= rest);
    assert(!begins(rest, front)) by {
        if begins(rest, front) {
            assert(rest.take(front.len() as int)[0] == '/');
            assert(id.contains(id[0]));
        }
    }
    reveal_with_fuel(without_front, 2);
    assert(url.len() > "/api/scenarios"@.len());
    assert(url[1] == 'a' && url[2] == 'p' && url[3] == 'i');
    assert("/app.js"@[3] == 'p');
    assert("/index.html"@[1] == 'i');
}

/// The paths of a scenario lead to it: its own, with or without `result`, the preview of
/// edits and their commit.
pub proof fn law_scenario_paths(id: Chars)
    requires
        plain_id(id),
    ensures
        endpoint(HttpMethod::Get, "/api/scenarios/"@ + id) == EndpointView::GetScenario(id),
        endpoint(HttpMethod::Get, "/api/scenarios/"@ + id + "/result"@)
            == EndpointView::GetScenario(id),
        endpoint(HttpMethod::Post, "/api/scenarios/"@ + id + "/preview"@)
            == EndpointView::Preview(id),
        endpoint(HttpMethod::Post, "/api/scenarios/"@ + id + "/commit"@)
            == EndpointView::Commit(id),
{
    reveal_strlit("");
    reveal_strlit("/result");
    reveal_strlit("result");
    reveal_strlit("/preview");
    reveal_strlit("/commit");
    assert(!""@.contains('?'));
    assert(!"/result"@.contains('?'));
    assert(!"/preview"@.contains('?'));
    assert(!"/commit"@.contains('?'));
    lemma_below(id, ""@);
    lemma_below(id, "/result"@);
    lemma_below(id, "/preview"@);
    lemma_below(id, "/commit"@);
    assert(id + ""@ =~= id);
    assert("/api/scenarios/"@ + id + ""@ =~= "/api/scenarios/"@ + id);
    lemma_before_char_absent(id, '/');
    lemma_split_at_first(id, "result"@, '/');
    assert(id + "/result"@ =~= id + seq!['/'] + "result"@);
    lemma_tail(id, "/preview"@);
    lemma_tail(id, "/commit"@);
    let commit = "/api/scenarios/"@ + id + "/commit"@;
    assert(!ends(commit, "/preview"@)) by {
        assert("/preview"@[7] == 'w');
        assert(commit[commit.len() - 1] == 't');
        if ends(commit, "/preview"@) {
            assert(commit.skip(commit.len() - 8)[7] == commit[commit.len() - 1]);
        }
    }
}

proof fn lemma_tail(id: Chars, tail: Chars)
    requires
        plain_id(id),
        tail.len() > 1,
        tail[0] == '/',
    ensures
        ends("/api/scenarios/"@ + id + tail, tail),
        without_back(id + tail, tail) == id,
{
    let url = "/api/scenarios/"@ + id + tail;
    assert(url.skip(url.len() - tail.len()) =~= tail);
    let rest = id + tail;
    assert(rest.skip(rest.len() - tail.len()) =~= tail);
    assert(rest.take(rest.len() - tail.len()) =~= id);
    assert(!ends(id, tail)) by {
        if ends(id, tail) {
            assert(id.skip(id.len() - tail.len())[0] == '/');
            assert(id[id.len() - tail.len()] == '/');
            assert(id.contains('/'));
        }
    }
    reveal_with_fuel(without_back, 2);
}

/// The query of a request does not decide its endpoint.
pub proof fn law_query_does_not_count(method: HttpMethod, path: Chars, query: Chars)
    requires
        !path.contains('?'),
    ensures
        endpoint(method, path + seq!['?'] + query) == endpoint(method, path),
{
    lemma_before_char_absent(path, '?');
    lemma_split_at_first(path, query, '?');
}

/// The pages, the list of scenarios, the upload, the diff of drafts and the health check have
/// paths of their own, each for its method; by another method nothing is found.
pub proof fn law_fixed_paths(url: Chars)
    ensures
        endpoint(HttpMethod::Get, url) == EndpointView::Index <==> path_of(url) == "/"@ || path_of(
            url,
        ) == "/index.html"@,
        endpoint(HttpMethod::Get, url) == EndpointView::AppJs <==> path_of(url) == "/app.js"@,
        endpoint(HttpMethod::Get, url) == EndpointView::ListScenarios <==> path_of(url)
            == "/api/scenarios"@,
        endpoint(HttpMethod::Get, url) == EndpointView::Health <==> path_of(url) == "/api/health"@,
        endpoint(HttpMethod::Post, url) == EndpointView::CreateScenario <==> path_of(url)
            == "/api/scenarios"@,
        endpoint(HttpMethod::Post, url) == EndpointView::DraftsDiff <==> path_of(url)
            == "/api/drafts/diff"@,
        endpoint(HttpMethod::Other, url) == EndpointView::NotFound,
        endpoint(HttpMethod::Get, url) !is CreateScenario,
        endpoint(HttpMethod::Get, url) !is Preview,
        endpoint(HttpMethod::Get, url) !is Commit,
        endpoint(HttpMethod::Get, url) !is DraftsDiff,
        endpoint(HttpMethod::Post, url) !is Index,
        endpoint(HttpMethod::Post, url) !is AppJs,
        endpoint(HttpMethod::Post, url) !is ListScenarios,
        endpoint(HttpMethod::Post, url) !is GetScenario,
        endpoint(HttpMethod::Post, url) !is Health,
{
    reveal_strlit("/");
    reveal_strlit("/index.html");
    reveal_strlit("/app.js");
    reveal_strlit("/api/scenarios");
    reveal_strlit("/api/scenarios/");
    reveal_strlit("/api/health");
    reveal_strlit("/api/drafts/diff");
    assert("/"@.len() == 1 && "/app.js"@.len() == 7 && "/api/scenarios"@.len() == 14);
    assert("/index.html"@.len() == 11 && "/api/health"@.len() == 11);
    assert("/index.html"@[1] == 'i' && "/api/health"@[1] == 'a');
    assert("/api/drafts/diff"@.len() == 16 && "/api/scenarios/"@.len() == 15);
    assert(!begins("/api/drafts/diff"@, "/api/scenarios/"@)) by {
        assert("/api/drafts/diff"@.take(15)[5] == 'd');
        assert("/api/scenarios/"@[5] == 's');
    }
}

/// Below a scenario nothing else is found: no other page of it, and nothing to post but a
/// preview or a commit.
pub proof fn law_nothing_else_below_a_scenario(id: Chars, word: Chars)
    requires
        plain_id(id),
        plain_id(word),
    ensures
        ({
            let url = "/api/scenarios/"@ + id + seq!['/'] + word;
            &&& word != "result"@ ==> endpoint(HttpMethod::Get, url) == EndpointView::NotFound
            &&& word != "preview"@ && word != "commit"@ ==> endpoint(HttpMethod::Post, url)
                == EndpointView::NotFound
        }),
{
    reveal_strlit("/preview");
    reveal_strlit("/commit");
    reveal_strlit("preview");
    reveal_strlit("commit");
    reveal_strlit("/api/drafts/diff");
    reveal_strlit("/api/scenarios/");
    let tail = seq!['/'] + word;
    let url = "/api/scenarios/"@ + id + tail;
    assert(url =~= "/api/scenarios/"@ + id + seq!['/'] + word);
    assert(!tail.contains('?')) by {
        if tail.contains('?') {
            let i = choose|i: int| 0 <= i < tail.len() && tail[i] == '?';
            assert(word[i - 1] == '?');
        }
    }
    lemma_below(id, tail);
    lemma_split_at_first(id, word, '/');
    assert(id + tail =~= id + seq!['/'] + word);
    assert("/preview"@ =~= seq!['/'] + "preview"@);
    assert("/commit"@ =~= seq!['/'] + "commit"@);
    if word != "preview"@ {
        lemma_other_end(url, "/api/scenarios/"@ + id, word, "preview"@);
    }
    if word != "commit"@ {
        lemma_other_end(url, "/api/scenarios/"@ + id, word, "commit"@);
    }
    assert(url[5] == 's') by {
        assert("/api/scenarios/"@[5] == 's');
    }
    assert("/api/drafts/diff"@[5] == 'd');
}

proof fn lemma_other_end(url: Chars, front: Chars, word: Chars, other: Chars)
    requires
        url == front + (seq!['/'] + word),
        word != other,
        !word.contains('/'),
        !other.contains('/'),
    ensures
        !ends(url, seq!['/'] + other),
{
    let part = seq!['/'] + other;
    if ends(url, part) {
        let at = url.len() - part.len();
        let end = url.skip(at);
        assert(end == part);
        if other.len() == word.len() {
            assert forall|i: int| 0 <= i < word.len() implies word[i] == other[i] by {
                assert(end[i + 1] == part[i + 1]);
            }
            assert(word =~= other);
        } else if other.len() < word.len() {
            assert(end[0] == part[0]);
            let i = word.len() - other.len() - 1;
            assert(word[i] == '/');
        } else {
            let i = other.len() - word.len() - 1;
            assert(end[i + 1] == part[i + 1]);
            assert(other[i] == '/');
        }
    }
}

} // verus!
