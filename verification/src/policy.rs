//! Ordered policy evaluation with explicit semantics:
//! - a rule that does not match: evaluation continues with the next rule (`miss`);
//! - a matching rule with `on_match = continue`: its actions apply and evaluation
//!   continues (`hit-continue`); later conditions see the new values;
//! - a matching rule with `on_match = accept|reject`: evaluation terminates
//!   (`hit-accept` / `hit-reject`);
//! - falling off the end applies the policy default decision.

use crate::model::{
    Action, ActionView, Cmp, Decision, Match, MatchView, OnMatch, Route, RouteView, Rule, RuleView,
};
use crate::text::{
    bracket, bracketed, decimal, decimals, i64_text, join, join_strs, quote_list, quoted_list,
    str_eq, strs_contain, u32_texts, u64_text, usize_text, Chars,
};
use crate::value::{push_to, Value};
use vstd::prelude::*;

verus! {

/// What one rule did.
#[derive(Clone, Copy, Debug, PartialEq, Eq, Structural)]
pub enum RuleOutcome {
    Miss,
    HitContinue,
    HitAccept,
    HitReject,
}

impl DeepView for RuleOutcome {
    type V = RuleOutcome;

    open spec fn deep_view(&self) -> RuleOutcome {
        *self
    }
}

impl Value for RuleOutcome {
    fn copy(&self) -> (r: Self) {
        *self
    }

    fn same(&self, other: &Self) -> (r: bool) {
        *self == *other
    }
}

/// The evidence of one rule.
#[derive(Clone, Debug, PartialEq, Eq)]
pub struct RuleTraceEntry {
    pub index: usize,
    pub rule: String,
    pub outcome: RuleOutcome,
    /// Human-readable explanation of why the rule matched or missed.
    pub detail: String,
    /// Snapshot of the route after the actions of this rule were applied.
    pub after: Option<Route>,
}

/// What a [`RuleTraceEntry`] holds.
#[verifier::ext_equal]
pub struct RuleTraceEntryView {
    pub index: usize,
    pub rule: Chars,
    pub outcome: RuleOutcome,
    pub detail: Chars,
    pub after: Option<RouteView>,
}

impl View for RuleTraceEntry {
    type V = RuleTraceEntryView;

    open spec fn view(&self) -> RuleTraceEntryView {
        RuleTraceEntryView {
            index: self.index,
            rule: self.rule.deep_view(),
            outcome: self.outcome,
            detail: self.detail.deep_view(),
            after: self.after.deep_view(),
        }
    }
}

impl DeepView for RuleTraceEntry {
    type V = RuleTraceEntryView;

    open spec fn deep_view(&self) -> RuleTraceEntryView {
        self@
    }
}

impl Value for RuleTraceEntry {
    fn copy(&self) -> (r: Self) {
        RuleTraceEntry {
            index: self.index,
            rule: self.rule.copy(),
            outcome: self.outcome,
            detail: self.detail.copy(),
            after: self.after.copy(),
        }
    }

    fn same(&self, other: &Self) -> (r: bool) {
        self.index == other.index
            && self.rule.same(&other.rule)
            && self.outcome == other.outcome
            && self.detail.same(&other.detail)
            && self.after.same(&other.after)
    }
}

/// The decision of a policy on a route.
#[derive(Clone, Copy, Debug, PartialEq, Eq, Structural)]
pub enum Verdict {
    Accept,
    Reject,
}

impl DeepView for Verdict {
    type V = Verdict;

    open spec fn deep_view(&self) -> Verdict {
        *self
    }
}

impl Value for Verdict {
    fn copy(&self) -> (r: Self) {
        *self
    }

    fn same(&self, other: &Self) -> (r: bool) {
        *self == *other
    }
}

/// The decision of a policy with its evidence.
#[derive(Clone, Debug, PartialEq, Eq)]
pub struct PolicyVerdict {
    pub decision: Verdict,
    /// Why the decision was taken.
    pub reason: String,
    /// Whether no terminating rule matched.
    pub defaulted: bool,
    pub trace: Vec<RuleTraceEntry>,
}

/// What a [`PolicyVerdict`] holds.
#[verifier::ext_equal]
pub struct PolicyVerdictView {
    pub decision: Verdict,
    pub reason: Chars,
    pub defaulted: bool,
    pub trace: Seq<RuleTraceEntryView>,
}

impl View for PolicyVerdict {
    type V = PolicyVerdictView;

    open spec fn view(&self) -> PolicyVerdictView {
        PolicyVerdictView {
            decision: self.decision,
            reason: self.reason.deep_view(),
            defaulted: self.defaulted,
            trace: self.trace.deep_view(),
        }
    }
}

impl DeepView for PolicyVerdict {
    type V = PolicyVerdictView;

    open spec fn deep_view(&self) -> PolicyVerdictView {
        self@
    }
}

impl Value for PolicyVerdict {
    fn copy(&self) -> (r: Self) {
        PolicyVerdict {
            decision: self.decision,
            reason: self.reason.copy(),
            defaulted: self.defaulted,
            trace: self.trace.copy(),
        }
    }

    fn same(&self, other: &Self) -> (r: bool) {
        self.decision == other.decision
            && self.reason.same(&other.reason)
            && self.defaulted == other.defaulted
            && self.trace.same(&other.trace)
    }
}

// ---------- conditions ----------

/// Whether a pattern matches a text: `*` stands for any run of characters, `?` for one
/// character, every other character for itself.
pub open spec fn glob(pattern: Chars, text: Chars) -> bool
    decreases pattern.len() + text.len(),
{
    if pattern.len() == 0 {
        text.len() == 0
    } else if pattern[0] == '*' {
        ||| glob(pattern.drop_first(), text)
        ||| text.len() > 0 && glob(pattern, text.drop_first())
    } else {
        &&& text.len() > 0
        &&& pattern[0] == '?' || pattern[0] == text[0]
        &&& glob(pattern.drop_first(), text.drop_first())
    }
}

/// The characters of a string.
fn chars_of(s: &str) -> (r: Vec<char>)
    ensures
        r@ == s@,
{
    let n = s.unicode_len();
    let mut out: Vec<char> = Vec::new();
    let mut i: usize = 0;
    while i < n
        invariant
            i <= n,
            n == s@.len(),
            out@ == s@.take(i as int),
        decreases n - i,
    {
        out.push(s.get_char(i));
        assert(s@.take(i + 1) =~= s@.take(i as int).push(s@[i as int]));
        i += 1;
    }
    assert(s@.take(i as int) =~= s@);
    out
}

fn glob_from(pattern: &Vec<char>, i: usize, text: &Vec<char>, j: usize) -> (r: bool)
    requires
        i <= pattern@.len(),
        j <= text@.len(),
    ensures
        r == glob(pattern@.skip(i as int), text@.skip(j as int)),
    decreases pattern.len() - i + text.len() - j,
{
    let ghost p = pattern@.skip(i as int);
    let ghost t = text@.skip(j as int);
    proof {
        if i < pattern@.len() {
            assert(p.drop_first() =~= pattern@.skip(i + 1));
        }
        if j < text@.len() {
            assert(t.drop_first() =~= text@.skip(j + 1));
        }
    }
    if i == pattern.len() {
        j == text.len()
    } else if pattern[i] == '*' {
        glob_from(pattern, i + 1, text, j) || (j < text.len() && glob_from(
            pattern,
            i,
            text,
            j + 1,
        ))
    } else {
        j < text.len() && (pattern[i] == '?' || pattern[i] == text[j]) && glob_from(
            pattern,
            i + 1,
            text,
            j + 1,
        )
    }
}

/// Whether a pattern matches a text.
pub fn glob_match(pattern: &str, text: &str) -> (r: bool)
    ensures
        r == glob(pattern@, text@),
{
    let p = chars_of(pattern);
    let t = chars_of(text);
    assert(p@.skip(0) =~= p@ && t@.skip(0) =~= t@);
    glob_from(&p, 0, &t, 0)
}

/// Whether a prefix meets a pattern under an operator.
pub open spec fn prefix_holds(pattern: Chars, prefix: Chars, op: Cmp) -> bool {
    match op {
        Cmp::Ne => pattern != prefix,
        Cmp::Matches => glob(pattern, prefix),
        Cmp::In => glob(pattern, prefix),
        Cmp::NotIn => !glob(pattern, prefix),
        _ => pattern == prefix,
    }
}

fn prefix_matches(pattern: &str, prefix: &str, op: Cmp) -> (r: bool)
    ensures
        r == prefix_holds(pattern@, prefix@, op),
{
    match op {
        Cmp::Ne => !str_eq(pattern, prefix),
        Cmp::Matches => glob_match(pattern, prefix),
        Cmp::In => glob_match(pattern, prefix),
        Cmp::NotIn => !glob_match(pattern, prefix),
        _ => str_eq(pattern, prefix),
    }
}

/// Whether a number meets another under an operator.
pub open spec fn number_holds(want: int, have: int, op: Cmp) -> bool {
    match op {
        Cmp::Ne => have != want,
        Cmp::Gte => have >= want,
        Cmp::Lte => have <= want,
        _ => have == want,
    }
}

fn num_holds(want: i128, have: i128, op: Cmp) -> (r: bool)
    ensures
        r == number_holds(want as int, have as int, op),
{
    match op {
        Cmp::Ne => have != want,
        Cmp::Gte => have >= want,
        Cmp::Lte => have <= want,
        _ => have == want,
    }
}

/// Whether some wanted community is present, or under `not-in` none is.
pub open spec fn community_holds(wanted: Seq<Chars>, have: Seq<Chars>, op: Cmp) -> bool {
    let any = exists|w: Chars| #[trigger] wanted.contains(w) && have.contains(w);
    match op {
        Cmp::NotIn => !any,
        _ => any,
    }
}

fn community_present(wanted: &Vec<String>, have: &Vec<String>, op: Cmp) -> (r: bool)
    ensures
        r == community_holds(wanted.deep_view(), have.deep_view(), op),
{
    let ghost w = wanted.deep_view();
    let ghost h = have.deep_view();
    let mut any = false;
    let mut i: usize = 0;
    while i < wanted.len()
        invariant
            i <= wanted@.len(),
            w == wanted.deep_view(),
            h == have.deep_view(),
            any ==> exists|x: Chars| #[trigger] w.contains(x) && h.contains(x),
            !any ==> forall|k: int| 0 <= k < i ==> !h.contains(#[trigger] w[k]),
        decreases wanted.len() - i,
    {
        if strs_contain(have, wanted[i].as_str()) {
            proof {
                assert(w[i as int] == wanted@[i as int]@);
                assert(w.contains(w[i as int]));
            }
            any = true;
        }
        i += 1;
    }
    match op {
        Cmp::NotIn => !any,
        _ => any,
    }
}

/// One condition of a rule against a route.
pub enum Condition {
    /// The rule does not ask for it.
    Absent,
    /// It holds, for this reason.
    Holds(String),
    /// It fails, for this reason.
    Fails(String),
}

/// What a [`Condition`] holds.
pub enum ConditionView {
    Absent,
    Holds(Chars),
    Fails(Chars),
}

impl View for Condition {
    type V = ConditionView;

    open spec fn view(&self) -> ConditionView {
        match self {
            Condition::Absent => ConditionView::Absent,
            Condition::Holds(s) => ConditionView::Holds(s@),
            Condition::Fails(s) => ConditionView::Fails(s@),
        }
    }
}

impl DeepView for Condition {
    type V = ConditionView;

    open spec fn deep_view(&self) -> ConditionView {
        self@
    }
}

/// The operator of a condition that names none.
pub open spec fn op_or(op: Option<Cmp>, default: Cmp) -> Cmp {
    match op {
        Some(o) => o,
        None => default,
    }
}

fn op_or_default(op: Option<Cmp>, default: Cmp) -> (r: Cmp)
    ensures
        r == op_or(op, default),
{
    match op {
        Some(o) => o,
        None => default,
    }
}

/// A number under an operator, with its evidence.
pub open spec fn number_condition(label: Chars, want: int, have: int, op: Cmp) -> ConditionView {
    if number_holds(want, have, op) {
        ConditionView::Holds(label + decimal(have) + " "@ + op.label() + " "@ + decimal(want))
    } else {
        ConditionView::Fails(
            label + decimal(have) + " failed "@ + op.label() + " "@ + decimal(want),
        )
    }
}

fn check_number(
    label: &str,
    want: i128,
    want_text: String,
    have: i128,
    have_text: String,
    op: Cmp,
) -> (r: Condition)
    requires
        want_text@ == decimal(want as int),
        have_text@ == decimal(have as int),
    ensures
        r@ == number_condition(label@, want as int, have as int, op),
{
    if num_holds(want, have, op) {
        Condition::Holds(
            label.to_owned().concat(have_text.as_str()).concat(" ").concat(op.label_str()).concat(
                " ",
            ).concat(want_text.as_str()),
        )
    } else {
        Condition::Fails(
            label.to_owned().concat(have_text.as_str()).concat(" failed ").concat(
                op.label_str(),
            ).concat(" ").concat(want_text.as_str()),
        )
    }
}

/// A signed number under an operator.
fn check_i64(label: &str, want: i64, have: i64, op: Cmp) -> (r: Condition)
    ensures
        r@ == number_condition(label@, want as int, have as int, op),
{
    check_number(label, want as i128, i64_text(want), have as i128, i64_text(have), op)
}

/// A length under an operator.
fn check_len(label: &str, want: usize, have: usize, op: Cmp) -> (r: Condition)
    ensures
        r@ == number_condition(label@, want as int, have as int, op),
{
    check_number(label, want as i128, usize_text(want), have as i128, usize_text(have), op)
}

/// The peer must be the wanted one.
pub open spec fn peer_condition(want: Option<Chars>, peer: Chars) -> ConditionView {
    match want {
        None => ConditionView::Absent,
        Some(w) => if w == peer {
            ConditionView::Holds("peer "@ + peer)
        } else {
            ConditionView::Fails("peer "@ + peer + " != "@ + w)
        },
    }
}

fn check_peer(want: &Option<String>, peer: &str) -> (r: Condition)
    ensures
        r@ == peer_condition(want.deep_view(), peer@),
{
    match want {
        None => Condition::Absent,
        Some(w) => if str_eq(w.as_str(), peer) {
            Condition::Holds("peer ".to_owned().concat(peer))
        } else {
            Condition::Fails(
                "peer ".to_owned().concat(peer).concat(" != ").concat(w.as_str()),
            )
        },
    }
}

/// The prefix must meet the pattern.
pub open spec fn prefix_condition(want: Option<Chars>, op: Cmp, prefix: Chars) -> ConditionView {
    match want {
        None => ConditionView::Absent,
        Some(w) => if prefix_holds(w, prefix, op) {
            ConditionView::Holds("prefix "@ + prefix + " "@ + op.label() + " "@ + w)
        } else {
            ConditionView::Fails("prefix "@ + prefix + " failed "@ + op.label() + " "@ + w)
        },
    }
}

fn check_prefix(want: &Option<String>, op: Cmp, prefix: &str) -> (r: Condition)
    ensures
        r@ == prefix_condition(want.deep_view(), op, prefix@),
{
    match want {
        None => Condition::Absent,
        Some(w) => if prefix_matches(w.as_str(), prefix, op) {
            Condition::Holds(
                "prefix ".to_owned().concat(prefix).concat(" ").concat(op.label_str()).concat(
                    " ",
                ).concat(w.as_str()),
            )
        } else {
            Condition::Fails(
                "prefix ".to_owned().concat(prefix).concat(" failed ").concat(
                    op.label_str(),
                ).concat(" ").concat(w.as_str()),
            )
        },
    }
}

/// The AS numbers of a list that a path does not contain, in the order of the list.
pub open spec fn missing_from(wanted: Seq<u32>, path: Seq<u32>) -> Seq<u32> {
    wanted.filter(|a: u32| !path.contains(a))
}

/// Every wanted AS must be on the path.
pub open spec fn contains_condition(wanted: Seq<u32>, path: Seq<u32>) -> ConditionView {
    if wanted.len() == 0 {
        ConditionView::Absent
    } else if missing_from(wanted, path).len() > 0 {
        ConditionView::Fails(
            "as_path missing "@ + bracketed(decimals(missing_from(wanted, path))),
        )
    } else {
        ConditionView::Holds("as_path contains "@ + bracketed(decimals(wanted)))
    }
}

/// Whether an AS number is on a path.
pub fn path_contains(path: &Vec<u32>, asn: u32) -> (r: bool)
    ensures
        r == path@.contains(asn),
{
    let mut i: usize = 0;
    while i < path.len()
        invariant
            i <= path@.len(),
            forall|k: int| 0 <= k < i ==> path@[k] != asn,
        decreases path.len() - i,
    {
        if path[i] == asn {
            return true;
        }
        i += 1;
    }
    false
}

fn check_contains(wanted: &Vec<u32>, path: &Vec<u32>) -> (r: Condition)
    ensures
        r@ == contains_condition(wanted@, path@),
{
    if wanted.len() == 0 {
        return Condition::Absent;
    }
    let ghost absent = |a: u32| !path@.contains(a);
    let mut missing: Vec<u32> = Vec::new();
    let mut i: usize = 0;
    assert(wanted@.take(0).filter(absent) =~= Seq::empty()) by {
        reveal(Seq::filter);
    }
    while i < wanted.len()
        invariant
            i <= wanted@.len(),
            absent == (|a: u32| !path@.contains(a)),
            missing@ == wanted@.take(i as int).filter(absent),
        decreases wanted.len() - i,
    {
        proof {
            assert(wanted@.take(i + 1) =~= wanted@.take(i as int).push(wanted@[i as int]));
            wanted@.take(i as int).lemma_filter_push(wanted@[i as int], absent);
        }
        if !path_contains(path, wanted[i]) {
            missing.push(wanted[i]);
        }
        i += 1;
    }
    assert(wanted@.take(i as int) =~= wanted@);
    if missing.len() > 0 {
        Condition::Fails(
            "as_path missing ".to_owned().concat(bracket(&u32_texts(&missing)).as_str()),
        )
    } else {
        Condition::Holds(
            "as_path contains ".to_owned().concat(bracket(&u32_texts(wanted)).as_str()),
        )
    }
}

/// The communities must meet the wanted ones.
pub open spec fn community_condition(
    wanted: Seq<Chars>,
    op: Cmp,
    have: Seq<Chars>,
) -> ConditionView {
    if wanted.len() == 0 {
        ConditionView::Absent
    } else if community_holds(wanted, have, op) {
        ConditionView::Holds(
            "community "@ + op.label() + " "@ + quoted_list(wanted) + " "@ + quoted_list(have),
        )
    } else {
        ConditionView::Fails(
            "communities "@ + quoted_list(have) + " failed "@ + op.label() + " "@ + quoted_list(
                wanted,
            ),
        )
    }
}

fn check_community(wanted: &Vec<String>, op: Cmp, have: &Vec<String>) -> (r: Condition)
    ensures
        r@ == community_condition(wanted.deep_view(), op, have.deep_view()),
{
    if wanted.len() == 0 {
        Condition::Absent
    } else if community_present(wanted, have, op) {
        Condition::Holds(
            "community ".to_owned().concat(op.label_str()).concat(" ").concat(
                quote_list(wanted).as_str(),
            ).concat(" ").concat(quote_list(have).as_str()),
        )
    } else {
        Condition::Fails(
            "communities ".to_owned().concat(quote_list(have).as_str()).concat(" failed ").concat(
                op.label_str(),
            ).concat(" ").concat(quote_list(wanted).as_str()),
        )
    }
}

/// A length under an operator, where one is asked for.
pub open spec fn len_condition(want: Option<usize>, op: Cmp, have: nat) -> ConditionView {
    match want {
        None => ConditionView::Absent,
        Some(w) => number_condition("as_path_len "@, w as int, have as int, op),
    }
}

/// A signed number under an operator, where one is asked for.
pub open spec fn i64_condition(
    label: Chars,
    want: Option<i64>,
    op: Cmp,
    have: i64,
) -> ConditionView {
    match want {
        None => ConditionView::Absent,
        Some(w) => number_condition(label, w as int, have as int, op),
    }
}

/// The conditions of a rule against a route and its peer, in their order.
pub open spec fn conditions(m: MatchView, route: RouteView, peer: Chars) -> Seq<ConditionView> {
    seq![
        peer_condition(m.peer, peer),
        prefix_condition(m.prefix, op_or(m.prefix_cmp, Cmp::Eq), route.prefix),
        len_condition(m.as_path_len, op_or(m.as_path_len_cmp, Cmp::Eq), route.as_path.len()),
        contains_condition(m.as_path_contains, route.as_path),
        i64_condition(
            "local_pref "@,
            m.local_pref,
            op_or(m.local_pref_cmp, Cmp::Eq),
            route.local_pref,
        ),
        i64_condition("med "@, m.med, op_or(m.med_cmp, Cmp::Eq), route.med_or_zero()),
        community_condition(
            m.community_any,
            op_or(m.community_any_cmp, Cmp::In),
            route.communities,
        ),
    ]
}

/// Whether all conditions from a position on hold, with the facts: the first failure
/// alone, or everything that holds.
pub open spec fn match_from(conds: Seq<ConditionView>, i: int, facts: Seq<Chars>) -> (
    bool,
    Seq<Chars>,
)
    decreases conds.len() - i,
{
    if i < 0 || i >= conds.len() {
        (true, facts)
    } else {
        match conds[i] {
            ConditionView::Absent => match_from(conds, i + 1, facts),
            ConditionView::Holds(fact) => match_from(conds, i + 1, facts.push(fact)),
            ConditionView::Fails(fact) => (false, seq![fact]),
        }
    }
}

/// Whether a route meets the conditions of a rule, and the facts that say so.
pub open spec fn matching(m: MatchView, route: RouteView, peer: Chars) -> (bool, Seq<Chars>) {
    match_from(conditions(m, route, peer), 0, Seq::empty())
}

fn check_all(m: &Match, route: &Route, peer: &str) -> (r: Vec<Condition>)
    ensures
        r.deep_view() == conditions(m@, route@, peer@),
{
    let mut out: Vec<Condition> = Vec::new();
    out.push(check_peer(&m.peer, peer));
    out.push(
        check_prefix(&m.prefix, op_or_default(m.prefix_cmp, Cmp::Eq), route.prefix.as_str()),
    );
    out.push(
        match m.as_path_len {
            None => Condition::Absent,
            Some(w) => check_len(
                "as_path_len ",
                w,
                route.as_path.len(),
                op_or_default(m.as_path_len_cmp, Cmp::Eq),
            ),
        },
    );
    out.push(check_contains(&m.as_path_contains, &route.as_path));
    out.push(
        match m.local_pref {
            None => Condition::Absent,
            Some(w) => check_i64(
                "local_pref ",
                w,
                route.local_pref,
                op_or_default(m.local_pref_cmp, Cmp::Eq),
            ),
        },
    );
    out.push(
        match m.med {
            None => Condition::Absent,
            Some(w) => check_i64(
                "med ",
                w,
                route.med_or_zero(),
                op_or_default(m.med_cmp, Cmp::Eq),
            ),
        },
    );
    out.push(
        check_community(
            &m.community_any,
            op_or_default(m.community_any_cmp, Cmp::In),
            &route.communities,
        ),
    );
    assert(m.as_path_contains.deep_view() =~= m.as_path_contains@);
    assert(route.as_path.deep_view() =~= route.as_path@);
    assert(out.deep_view() =~= conditions(m@, route@, peer@));
    out
}

/// Evaluates one match block against the current route (after previous rewrites).
/// Gives whether it matched and the facts that say so.
pub fn evaluate_match(m: &Match, route: &Route, peer: &str) -> (r: (bool, Vec<String>))
    ensures
        (r.0, r.1.deep_view()) == matching(m@, route@, peer@),
{
    let conds = check_all(m, route, peer);
    let ghost views = conds.deep_view();
    let mut facts: Vec<String> = Vec::new();
    let mut i: usize = 0;
    assert(facts.deep_view() =~= Seq::empty());
    while i < conds.len()
        invariant
            i <= conds@.len(),
            views == conds.deep_view(),
            views == conditions(m@, route@, peer@),
            match_from(views, i as int, facts.deep_view()) == match_from(views, 0, Seq::empty()),
        decreases conds.len() - i,
    {
        assert(views[i as int] == conds@[i as int]@);
        match &conds[i] {
            Condition::Absent => {},
            Condition::Holds(fact) => {
                let ghost before = facts.deep_view();
                facts.push(fact.clone());
                assert(facts.deep_view() =~= before.push(fact@));
            },
            Condition::Fails(fact) => {
                let mut only: Vec<String> = Vec::new();
                only.push(fact.clone());
                assert(only.deep_view() =~= seq![fact@]);
                return (false, only);
            },
        }
        i += 1;
    }
    (true, facts)
}

// ---------- actions ----------

/// The debugging form of an optional number.
pub open spec fn optional_number(n: Option<i64>) -> Chars {
    match n {
        Some(v) => "Some("@ + decimal(v as int) + ")"@,
        None => "None"@,
    }
}

fn optional_text(n: Option<i64>) -> (r: String)
    ensures
        r@ == optional_number(n),
{
    match n {
        Some(v) => "Some(".to_owned().concat(i64_text(v).as_str()).concat(")"),
        None => "None".to_owned(),
    }
}

/// A list without the members of another, in its own order.
pub open spec fn without(list: Seq<Chars>, gone: Seq<Chars>) -> Seq<Chars> {
    list.filter(|c: Chars| !gone.contains(c))
}

/// A list with a member, appended if it is not there.
pub open spec fn with_member(list: Seq<Chars>, c: Chars) -> Seq<Chars> {
    if list.contains(c) {
        list
    } else {
        list.push(c)
    }
}

/// The route after the rewrites of an action. Prepending happens at the send boundary.
pub open spec fn rewritten(route: RouteView, a: ActionView) -> RouteView {
    let tagged = match a.add_community {
        Some(c) => with_member(route.communities, c),
        None => route.communities,
    };
    RouteView {
        local_pref: match a.set_local_pref {
            Some(v) => v,
            None => route.local_pref,
        },
        med: match a.set_med {
            Some(v) => Some(v),
            None => route.med,
        },
        communities: without(tagged, a.remove_communities),
        ..route
    }
}

/// A list with an entry, if there is one.
pub open spec fn with_some(list: Seq<Chars>, entry: Option<Chars>) -> Seq<Chars> {
    match entry {
        Some(e) => list.push(e),
        None => list,
    }
}

/// What an action changes on a route, in words.
pub open spec fn changes(route: RouteView, a: ActionView) -> Seq<Chars> {
    let tagged = match a.add_community {
        Some(c) => with_member(route.communities, c),
        None => route.communities,
    };
    let local_pref = match a.set_local_pref {
        Some(v) => Some(
            "local_pref "@ + decimal(route.local_pref as int) + " -> "@ + decimal(v as int),
        ),
        None => None,
    };
    let med = match a.set_med {
        Some(v) => Some("med "@ + optional_number(route.med) + " -> "@ + decimal(v as int)),
        None => None,
    };
    let add = match a.add_community {
        Some(c) => Some("add community "@ + c),
        None => None,
    };
    let remove = if without(tagged, a.remove_communities).len() != tagged.len() {
        Some("remove communities "@ + quoted_list(a.remove_communities))
    } else {
        None
    };
    let prepend = match a.as_path_prepend {
        Some(n) => if n > 0 {
            Some("as_path_prepend +"@ + decimal(n as int) + " (applied at send boundary)"@)
        } else {
            None
        },
        None => None,
    };
    let rewrites = with_some(with_some(Seq::empty(), local_pref), med);
    with_some(with_some(with_some(rewrites, add), remove), prepend)
}

/// Takes the members of a list out of another.
fn strip(list: &Vec<String>, gone: &Vec<String>) -> (r: Vec<String>)
    ensures
        r.deep_view() == without(list.deep_view(), gone.deep_view()),
{
    let ghost all = list.deep_view();
    let ghost stays = |c: Chars| !gone.deep_view().contains(c);
    let mut out: Vec<String> = Vec::new();
    let mut i: usize = 0;
    assert(out.deep_view() =~= all.take(0).filter(stays)) by {
        reveal(Seq::filter);
    }
    while i < list.len()
        invariant
            i <= list@.len(),
            all == list.deep_view(),
            stays == (|c: Chars| !gone.deep_view().contains(c)),
            out.deep_view() == all.take(i as int).filter(stays),
        decreases list.len() - i,
    {
        proof {
            assert(all.take(i + 1) =~= all.take(i as int).push(all[i as int]));
            all.take(i as int).lemma_filter_push(all[i as int], stays);
        }
        if !strs_contain(gone, list[i].as_str()) {
            push_to(&mut out, list[i].clone());
        }
        i += 1;
    }
    assert(all.take(i as int) =~= all);
    out
}

proof fn lemma_without_nothing(list: Seq<Chars>)
    ensures
        without(list, Seq::empty()) == list,
    decreases list.len(),
{
    reveal(Seq::filter);
    if list.len() > 0 {
        lemma_without_nothing(list.drop_last());
        assert(list =~= list.drop_last().push(list.last()));
    } else {
        assert(without(list, Seq::empty()) =~= list);
    }
}

/// Applies the rewrites of an action to a route and says what changed.
pub fn apply_action(route: &mut Route, a: &Action) -> (r: Vec<String>)
    ensures
        final(route)@ == rewritten(old(route)@, a@),
        r.deep_view() == changes(old(route)@, a@),
{
    let ghost before = route@;
    let mut out: Vec<String> = Vec::new();
    assert(out.deep_view() =~= Seq::empty());
    if let Some(v) = a.set_local_pref {
        push_to(
            &mut out,
            "local_pref ".to_owned().concat(i64_text(route.local_pref).as_str()).concat(
                " -> ",
            ).concat(i64_text(v).as_str()),
        );
        route.local_pref = v;
    }
    if let Some(v) = a.set_med {
        push_to(
            &mut out,
            "med ".to_owned().concat(optional_text(route.med).as_str()).concat(" -> ").concat(
                i64_text(v).as_str(),
            ),
        );
        route.med = Some(v);
    }
    if let Some(c) = &a.add_community {
        if !strs_contain(&route.communities, c.as_str()) {
            push_to(&mut route.communities, c.clone());
        }
        push_to(&mut out, "add community ".to_owned().concat(c.as_str()));
    }
    let ghost tagged = route.communities.deep_view();
    if a.remove_communities.len() > 0 {
        let kept = strip(&route.communities, &a.remove_communities);
        if kept.len() != route.communities.len() {
            push_to(
                &mut out,
                "remove communities ".to_owned().concat(
                    quote_list(&a.remove_communities).as_str(),
                ),
            );
        }
        route.communities = kept;
    } else {
        proof {
            assert(a.remove_communities.deep_view() =~= Seq::empty());
            lemma_without_nothing(tagged);
        }
    }
    if let Some(n) = a.as_path_prepend {
        if n > 0 {
            push_to(
                &mut out,
                "as_path_prepend +".to_owned().concat(u64_text(n as u64).as_str()).concat(
                    " (applied at send boundary)",
                ),
            );
        }
    }
    out
}

// ---------- evaluation ----------

/// The sum of two counts, at most the largest count.
pub open spec fn saturated(a: u32, b: u32) -> u32 {
    if a + b > u32::MAX {
        u32::MAX
    } else {
        (a + b) as u32
    }
}

/// The prepend count after a rule has matched.
pub open spec fn prepended(count: u32, a: ActionView) -> u32 {
    match a.as_path_prepend {
        Some(n) => saturated(count, n),
        None => count,
    }
}

/// The outcome of a matching rule.
pub open spec fn hit_outcome(on_match: OnMatch) -> RuleOutcome {
    match on_match {
        OnMatch::Continue => RuleOutcome::HitContinue,
        OnMatch::Accept => RuleOutcome::HitAccept,
        OnMatch::Reject => RuleOutcome::HitReject,
    }
}

/// What a rule that matched says.
pub open spec fn hit_detail(facts: Seq<Chars>, changed: Seq<Chars>) -> Chars {
    if changed.len() > 0 {
        join(facts, ", "@) + " | "@ + join(changed, ", "@)
    } else {
        join(facts, ", "@)
    }
}

/// The evidence of a rule on the route that it met.
pub open spec fn rule_entry(
    index: int,
    rule: RuleView,
    route: RouteView,
    peer: Chars,
) -> RuleTraceEntryView {
    let (matched, facts) = matching(rule.when, route, peer);
    if matched {
        RuleTraceEntryView {
            index: index as usize,
            rule: rule.id,
            outcome: hit_outcome(rule.on_match),
            detail: hit_detail(facts, changes(route, rule.do_)),
            after: Some(rewritten(route, rule.do_)),
        }
    } else {
        RuleTraceEntryView {
            index: index as usize,
            rule: rule.id,
            outcome: RuleOutcome::Miss,
            detail: join(facts, "; "@),
            after: None,
        }
    }
}

/// The verdict of a rule that terminates the evaluation.
pub open spec fn terminated(
    decision: Verdict,
    rule: Chars,
    trace: Seq<RuleTraceEntryView>,
) -> PolicyVerdictView {
    PolicyVerdictView {
        decision,
        reason: match decision {
            Verdict::Accept => "rule "@ + rule + " terminated accept"@,
            Verdict::Reject => "rule "@ + rule + " terminated reject"@,
        },
        defaulted: false,
        trace,
    }
}

/// The verdict of a policy whose rules did not terminate.
pub open spec fn fell_through(
    default: Decision,
    trace: Seq<RuleTraceEntryView>,
) -> PolicyVerdictView {
    match default {
        Decision::Accept => PolicyVerdictView {
            decision: Verdict::Accept,
            reason: "no terminating rule matched: policy default accept"@,
            defaulted: true,
            trace,
        },
        Decision::Reject => PolicyVerdictView {
            decision: Verdict::Reject,
            reason: "no terminating rule matched: policy default reject"@,
            defaulted: true,
            trace,
        },
    }
}

/// The evaluation of the rules from a position on: the verdict, the rewritten route and
/// the number of extra ASes to prepend.
pub open spec fn evaluation_from(
    rules: Seq<RuleView>,
    i: int,
    route: RouteView,
    trace: Seq<RuleTraceEntryView>,
    count: u32,
    peer: Chars,
    default: Decision,
) -> (PolicyVerdictView, RouteView, u32)
    decreases rules.len() - i,
{
    if i < 0 || i >= rules.len() {
        (fell_through(default, trace), route, count)
    } else {
        let rule = rules[i];
        let longer = trace.push(rule_entry(i, rule, route, peer));
        if !matching(rule.when, route, peer).0 {
            evaluation_from(rules, i + 1, route, longer, count, peer, default)
        } else {
            let next = rewritten(route, rule.do_);
            let more = prepended(count, rule.do_);
            match rule.on_match {
                OnMatch::Continue => evaluation_from(
                    rules,
                    i + 1,
                    next,
                    longer,
                    more,
                    peer,
                    default,
                ),
                OnMatch::Accept => (terminated(Verdict::Accept, rule.id, longer), next, more),
                OnMatch::Reject => (terminated(Verdict::Reject, rule.id, longer), next, more),
            }
        }
    }
}

/// The evaluation of an ordered rule list on a route that is exchanged with a peer.
pub open spec fn evaluation(
    rules: Seq<RuleView>,
    route: RouteView,
    peer: Chars,
    default: Decision,
) -> (PolicyVerdictView, RouteView, u32) {
    evaluation_from(rules, 0, route, Seq::empty(), 0, peer, default)
}

/// Evaluates an ordered rule list. The count of extra prepends is returned separately
/// because prepending materializes at the send boundary (export), where the
/// advertising AS is known.
pub fn evaluate(rules: &Vec<Rule>, route_in: &Route, peer: &str, default: Decision) -> (r: (
    PolicyVerdict,
    Route,
    u32,
))
    ensures
        (r.0@, r.1@, r.2) == evaluation(rules.deep_view(), route_in@, peer@, default),
{
    let ghost all = rules.deep_view();
    let ghost result = evaluation(all, route_in@, peer@, default);
    let mut route = route_in.copy();
    let mut trace: Vec<RuleTraceEntry> = Vec::new();
    let mut prepend_n: u32 = 0;
    let mut index: usize = 0;
    assert(trace.deep_view() =~= Seq::empty());
    while index < rules.len()
        invariant
            index <= rules@.len(),
            all == rules.deep_view(),
            result == evaluation(all, route_in@, peer@, default),
            result == evaluation_from(
                all,
                index as int,
                route@,
                trace.deep_view(),
                prepend_n,
                peer@,
                default,
            ),
        decreases rules.len() - index,
    {
        let rule = &rules[index];
        let ghost met = route@;
        assert(all[index as int] == rule@);
        let (matched, facts) = evaluate_match(&rule.when, &route, peer);
        if !matched {
            push_to(
                &mut trace,
                RuleTraceEntry {
                    index,
                    rule: rule.id.clone(),
                    outcome: RuleOutcome::Miss,
                    detail: join_strs(&facts, "; "),
                    after: None,
                },
            );
            index += 1;
            continue ;
        }
        let changed = apply_action(&mut route, &rule.do_);
        if let Some(n) = rule.do_.as_path_prepend {
            prepend_n = prepend_n.saturating_add(n);
        }
        let mut detail = join_strs(&facts, ", ");
        if changed.len() > 0 {
            detail = detail.concat(" | ").concat(join_strs(&changed, ", ").as_str());
        }
        let outcome = match rule.on_match {
            OnMatch::Continue => RuleOutcome::HitContinue,
            OnMatch::Accept => RuleOutcome::HitAccept,
            OnMatch::Reject => RuleOutcome::HitReject,
        };
        let entry = RuleTraceEntry {
            index,
            rule: rule.id.clone(),
            outcome,
            detail,
            after: Some(route.copy()),
        };
        assert(entry@ == rule_entry(index as int, rule@, met, peer@));
        push_to(&mut trace, entry);
        match rule.on_match {
            OnMatch::Continue => {},
            OnMatch::Accept => {
                let reason = "rule ".to_owned().concat(rule.id.as_str()).concat(
                    " terminated accept",
                );
                return (
                    PolicyVerdict { decision: Verdict::Accept, reason, defaulted: false, trace },
                    route,
                    prepend_n,
                );
            },
            OnMatch::Reject => {
                let reason = "rule ".to_owned().concat(rule.id.as_str()).concat(
                    " terminated reject",
                );
                return (
                    PolicyVerdict { decision: Verdict::Reject, reason, defaulted: false, trace },
                    route,
                    prepend_n,
                );
            },
        }
        index += 1;
    }
    let verdict = match default {
        Decision::Accept => PolicyVerdict {
            decision: Verdict::Accept,
            reason: "no terminating rule matched: policy default accept".to_owned(),
            defaulted: true,
            trace,
        },
        Decision::Reject => PolicyVerdict {
            decision: Verdict::Reject,
            reason: "no terminating rule matched: policy default reject".to_owned(),
            defaulted: true,
            trace,
        },
    };
    (verdict, route, prepend_n)
}

// ---------- laws ----------

/// Whether an outcome ends the evaluation.
pub open spec fn terminates(outcome: RuleOutcome) -> bool {
    outcome == RuleOutcome::HitAccept || outcome == RuleOutcome::HitReject
}

/// A route that differs from another in nothing but what a policy may rewrite.
pub open spec fn same_identity(a: RouteView, b: RouteView) -> bool {
    &&& a.prefix == b.prefix
    &&& a.as_path == b.as_path
    &&& a.provenance == b.provenance
    &&& a.ingress_session == b.ingress_session
    &&& a.first_as == b.first_as
}

proof fn lemma_identity_from(
    rules: Seq<RuleView>,
    i: int,
    route: RouteView,
    trace: Seq<RuleTraceEntryView>,
    count: u32,
    peer: Chars,
    default: Decision,
)
    ensures
        same_identity(evaluation_from(rules, i, route, trace, count, peer, default).1, route),
    decreases rules.len() - i,
{
    if 0 <= i < rules.len() {
        let longer = trace.push(rule_entry(i, rules[i], route, peer));
        lemma_identity_from(rules, i + 1, route, longer, count, peer, default);
        lemma_identity_from(
            rules,
            i + 1,
            rewritten(route, rules[i].do_),
            longer,
            prepended(count, rules[i].do_),
            peer,
            default,
        );
    }
}

/// A policy rewrites local preference, MED and communities. It never touches the prefix,
/// the AS_PATH, the provenance, the ingress session or the first AS of a route.
pub proof fn law_policy_keeps_identity(
    rules: Seq<RuleView>,
    route: RouteView,
    peer: Chars,
    default: Decision,
)
    ensures
        same_identity(evaluation(rules, route, peer, default).1, route),
{
    lemma_identity_from(rules, 0, route, Seq::empty(), 0, peer, default);
}

/// A trace that follows its rules one by one, none of which ended the evaluation.
pub open spec fn follows(trace: Seq<RuleTraceEntryView>, rules: Seq<RuleView>) -> bool {
    &&& trace.len() <= rules.len() <= usize::MAX
    &&& forall|k: int|
        0 <= k < trace.len() ==> {
            &&& (#[trigger] trace[k]).index == k
            &&& trace[k].rule == rules[k].id
        }
}

proof fn lemma_trace_from(
    rules: Seq<RuleView>,
    i: int,
    route: RouteView,
    trace: Seq<RuleTraceEntryView>,
    count: u32,
    peer: Chars,
    default: Decision,
)
    requires
        follows(trace, rules),
        trace.len() == i,
        forall|k: int| 0 <= k < trace.len() ==> !terminates((#[trigger] trace[k]).outcome),
    ensures
        ({
            let v = evaluation_from(rules, i, route, trace, count, peer, default).0;
            let n = v.trace.len() as int;
            &&& follows(v.trace, rules)
            &&& v.defaulted ==> {
                &&& n == rules.len()
                &&& v.decision == (match default {
                    Decision::Accept => Verdict::Accept,
                    Decision::Reject => Verdict::Reject,
                })
                &&& forall|k: int| 0 <= k < n ==> !terminates((#[trigger] v.trace[k]).outcome)
            }
            &&& !v.defaulted ==> {
                &&& n > 0
                &&& v.trace[n - 1].outcome == (match v.decision {
                    Verdict::Accept => RuleOutcome::HitAccept,
                    Verdict::Reject => RuleOutcome::HitReject,
                })
                &&& forall|k: int| 0 <= k < n - 1 ==> !terminates((#[trigger] v.trace[k]).outcome)
            }
        }),
    decreases rules.len() - i,
{
    if 0 <= i < rules.len() {
        let rule = rules[i];
        let entry = rule_entry(i, rule, route, peer);
        let longer = trace.push(entry);
        assert(follows(longer, rules));
        if !matching(rule.when, route, peer).0 {
            lemma_trace_from(rules, i + 1, route, longer, count, peer, default);
        } else if rule.on_match == OnMatch::Continue {
            lemma_trace_from(
                rules,
                i + 1,
                rewritten(route, rule.do_),
                longer,
                prepended(count, rule.do_),
                peer,
                default,
            );
        }
    }
}

/// Rules are evaluated one after another, each leaving one entry in the trace, until
/// the first one that terminates. Only where none does the default decides.
pub proof fn law_first_terminating_rule_decides(
    rules: Seq<RuleView>,
    route: RouteView,
    peer: Chars,
    default: Decision,
)
    requires
        rules.len() <= usize::MAX,
    ensures
        ({
            let v = evaluation(rules, route, peer, default).0;
            let n = v.trace.len() as int;
            &&& follows(v.trace, rules)
            &&& v.defaulted ==> {
                &&& n == rules.len()
                &&& v.decision == (match default {
                    Decision::Accept => Verdict::Accept,
                    Decision::Reject => Verdict::Reject,
                })
                &&& forall|k: int| 0 <= k < n ==> !terminates((#[trigger] v.trace[k]).outcome)
            }
            &&& !v.defaulted ==> {
                &&& n > 0
                &&& v.trace[n - 1].outcome == (match v.decision {
                    Verdict::Accept => RuleOutcome::HitAccept,
                    Verdict::Reject => RuleOutcome::HitReject,
                })
                &&& forall|k: int| 0 <= k < n - 1 ==> !terminates((#[trigger] v.trace[k]).outcome)
            }
        }),
{
    lemma_trace_from(rules, 0, route, Seq::empty(), 0, peer, default);
}

proof fn lemma_terminated_from(
    rules: Seq<RuleView>,
    more: Seq<RuleView>,
    i: int,
    route: RouteView,
    trace: Seq<RuleTraceEntryView>,
    count: u32,
    peer: Chars,
    default: Decision,
)
    requires
        0 <= i,
        !evaluation_from(rules, i, route, trace, count, peer, default).0.defaulted,
    ensures
        evaluation_from(rules + more, i, route, trace, count, peer, default) == evaluation_from(
            rules,
            i,
            route,
            trace,
            count,
            peer,
            default,
        ),
    decreases rules.len() - i,
{
    if i < rules.len() {
        let rule = rules[i];
        assert((rules + more)[i] == rule);
        let longer = trace.push(rule_entry(i, rule, route, peer));
        if !matching(rule.when, route, peer).0 {
            lemma_terminated_from(rules, more, i + 1, route, longer, count, peer, default);
        } else if rule.on_match == OnMatch::Continue {
            lemma_terminated_from(
                rules,
                more,
                i + 1,
                rewritten(route, rule.do_),
                longer,
                prepended(count, rule.do_),
                peer,
                default,
            );
        }
    }
}

/// Once a rule has terminated the evaluation, no rule after it is ever consulted.
pub proof fn law_later_rules_never_consulted(
    rules: Seq<RuleView>,
    more: Seq<RuleView>,
    route: RouteView,
    peer: Chars,
    default: Decision,
)
    requires
        !evaluation(rules, route, peer, default).0.defaulted,
    ensures
        evaluation(rules + more, route, peer, default) == evaluation(rules, route, peer, default),
{
    lemma_terminated_from(rules, more, 0, route, Seq::empty(), 0, peer, default);
}

proof fn lemma_shifted_from(
    first: RuleView,
    rest: Seq<RuleView>,
    i: int,
    route: RouteView,
    trace: Seq<RuleTraceEntryView>,
    trace2: Seq<RuleTraceEntryView>,
    base: u32,
    count: u32,
    peer: Chars,
    default: Decision,
)
    requires
        0 <= i,
    ensures
        ({
            let a = evaluation_from(
                seq![first] + rest,
                i + 1,
                route,
                trace,
                saturated(base, count),
                peer,
                default,
            );
            let b = evaluation_from(rest, i, route, trace2, count, peer, default);
            &&& a.0.decision == b.0.decision
            &&& a.0.reason == b.0.reason
            &&& a.0.defaulted == b.0.defaulted
            &&& a.1 == b.1
            &&& a.2 == saturated(base, b.2)
        }),
    decreases rest.len() - i,
{
    if i < rest.len() {
        let all = seq![first] + rest;
        let rule = rest[i];
        assert(all[i + 1] == rule);
        let longer = trace.push(rule_entry(i + 1, rule, route, peer));
        let longer2 = trace2.push(rule_entry(i, rule, route, peer));
        if !matching(rule.when, route, peer).0 {
            lemma_shifted_from(
                first,
                rest,
                i + 1,
                route,
                longer,
                longer2,
                base,
                count,
                peer,
                default,
            );
        } else if rule.on_match == OnMatch::Continue {
            lemma_shifted_from(
                first,
                rest,
                i + 1,
                rewritten(route, rule.do_),
                longer,
                longer2,
                base,
                prepended(count, rule.do_),
                peer,
                default,
            );
        }
    }
}

/// A rule that misses leaves the route as it is: the rules after it decide as if it were
/// not there.
pub proof fn law_miss_continues(
    rule: RuleView,
    rest: Seq<RuleView>,
    route: RouteView,
    peer: Chars,
    default: Decision,
)
    requires
        !matching(rule.when, route, peer).0,
    ensures
        ({
            let a = evaluation(seq![rule] + rest, route, peer, default);
            let b = evaluation(rest, route, peer, default);
            &&& a.0.decision == b.0.decision
            &&& a.0.reason == b.0.reason
            &&& a.0.defaulted == b.0.defaulted
            &&& a.1 == b.1
            &&& a.2 == b.2
        }),
{
    assert((seq![rule] + rest)[0] == rule);
    lemma_shifted_from(
        rule,
        rest,
        0,
        route,
        Seq::empty().push(rule_entry(0, rule, route, peer)),
        Seq::empty(),
        0,
        0,
        peer,
        default,
    );
}

/// A rule that matches and continues applies its actions at once: the rules after it
/// are evaluated on the rewritten route, so their conditions see the new values, and the
/// prepends that it asks for count.
pub proof fn law_rewrites_visible_to_later_rules(
    rule: RuleView,
    rest: Seq<RuleView>,
    route: RouteView,
    peer: Chars,
    default: Decision,
)
    requires
        matching(rule.when, route, peer).0,
        rule.on_match == OnMatch::Continue,
    ensures
        ({
            let a = evaluation(seq![rule] + rest, route, peer, default);
            let b = evaluation(rest, rewritten(route, rule.do_), peer, default);
            &&& a.0.decision == b.0.decision
            &&& a.0.reason == b.0.reason
            &&& a.0.defaulted == b.0.defaulted
            &&& a.1 == b.1
            &&& a.2 == saturated(prepended(0, rule.do_), b.2)
        }),
{
    assert((seq![rule] + rest)[0] == rule);
    lemma_shifted_from(
        rule,
        rest,
        0,
        rewritten(route, rule.do_),
        Seq::empty().push(rule_entry(0, rule, route, peer)),
        Seq::empty(),
        prepended(0, rule.do_),
        0,
        peer,
        default,
    );
}

/// A rule that matches and terminates decides, whatever comes after it.
pub proof fn law_terminating_match_decides(
    rule: RuleView,
    rest: Seq<RuleView>,
    route: RouteView,
    peer: Chars,
    default: Decision,
)
    requires
        matching(rule.when, route, peer).0,
        rule.on_match != OnMatch::Continue,
    ensures
        ({
            let a = evaluation(seq![rule] + rest, route, peer, default);
            &&& a.0.decision == (if rule.on_match == OnMatch::Accept {
                Verdict::Accept
            } else {
                Verdict::Reject
            })
            &&& !a.0.defaulted
            &&& a.0.trace.len() == 1
            &&& a.1 == rewritten(route, rule.do_)
        }),
{
    assert((seq![rule] + rest)[0] == rule);
}

/// The conditions of a rule are joined by "and": it matches exactly where none of them
/// fails.
pub proof fn law_conditions_are_joined(m: MatchView, route: RouteView, peer: Chars)
    ensures
        matching(m, route, peer).0 <==> forall|k: int|
            0 <= k < conditions(m, route, peer).len() ==> !(
            #[trigger] conditions(m, route, peer)[k] is Fails),
{
    let conds = conditions(m, route, peer);
    reveal_with_fuel(match_from, 8);
    assert(conds.len() == 7);
    if !matching(m, route, peer).0 {
        assert(conds[0] is Fails || conds[1] is Fails || conds[2] is Fails || conds[3] is Fails
            || conds[4] is Fails || conds[5] is Fails || conds[6] is Fails);
    } else {
        assert forall|k: int| 0 <= k < conds.len() implies !(#[trigger] conds[k] is Fails) by {
            assert(!(conds[0] is Fails) && !(conds[1] is Fails) && !(conds[2] is Fails));
            assert(!(conds[3] is Fails) && !(conds[4] is Fails));
            assert(!(conds[5] is Fails) && !(conds[6] is Fails));
        }
    }
}

/// A rule without conditions matches every route from every peer.
pub proof fn law_empty_match_matches(route: RouteView, peer: Chars)
    ensures
        matching(MatchView::empty(), route, peer).0,
{
    reveal_with_fuel(match_from, 8);
}

/// A pattern without `*` and `?` matches itself and nothing else.
pub proof fn law_literal_pattern_matches_itself(pattern: Chars, text: Chars)
    requires
        !pattern.contains('*'),
        !pattern.contains('?'),
    ensures
        glob(pattern, text) <==> pattern == text,
    decreases pattern.len(),
{
    if pattern.len() > 0 {
        assert(pattern.contains(pattern[0]));
        let rest = pattern.drop_first();
        assert forall|c: char| rest.contains(c) implies pattern.contains(c) by {
            let i = choose|i: int| 0 <= i < rest.len() && rest[i] == c;
            assert(pattern[i + 1] == c);
        }
        if text.len() > 0 {
            law_literal_pattern_matches_itself(rest, text.drop_first());
            if rest == text.drop_first() && pattern[0] == text[0] {
                assert(pattern =~= text) by {
                    assert forall|i: int| 0 <= i < pattern.len() implies pattern[i] == text[i] by {
                        if i > 0 {
                            assert(rest[i - 1] == text.drop_first()[i - 1]);
                        }
                    }
                }
            }
        }
    } else if text.len() == 0 {
        assert(pattern =~= text);
    }
}

/// `*` matches every text, and `?` every text of one character.
pub proof fn law_wildcards(text: Chars)
    ensures
        glob(seq!['*'], text),
        glob(seq!['?'], text) <==> text.len() == 1,
    decreases text.len(),
{
    let star = seq!['*'];
    let one = seq!['?'];
    assert(star.drop_first() =~= Seq::empty());
    assert(one.drop_first() =~= Seq::empty());
    reveal_with_fuel(glob, 3);
    if text.len() > 0 {
        law_wildcards(text.drop_first());
    }
}

/// A pattern that consists of two matches a text exactly where the text falls into two parts
/// that these match.
pub proof fn law_pattern_matches_part_by_part(first: Chars, second: Chars, text: Chars)
    ensures
        glob(first + second, text) <==> exists|i: int|
            #![trigger text.take(i)]
            0 <= i <= text.len() && glob(first, text.take(i)) && glob(second, text.skip(i)),
    decreases first.len() + text.len(), 1nat,
{
    let whole = first + second;
    if first.len() == 0 {
        assert(whole =~= second);
        assert(text.skip(0) =~= text);
        assert(text.take(0).len() == 0);
        if exists|i: int|
            #![trigger text.take(i)]
            0 <= i <= text.len() && glob(first, text.take(i)) && glob(second, text.skip(i)) {
            let i = choose|i: int|
                #![trigger text.take(i)]
                0 <= i <= text.len() && glob(first, text.take(i)) && glob(second, text.skip(i));
            assert(text.take(i).len() == 0);
        }
    } else {
        assert(whole.drop_first() =~= first.drop_first() + second);
        assert(whole[0] == first[0]);
        if text.len() > 0 {
            let rest = text.drop_first();
            assert forall|i: int| 0 <= i <= rest.len() implies text.take(i + 1).drop_first()
                =~= #[trigger] rest.take(i) && text.skip(i + 1) =~= rest.skip(i) by {}
            assert(text.take(0).len() == 0);
        }
        if first[0] == '*' {
            lemma_star_part(first, second, text);
        } else {
            if text.len() > 0 {
                let rest = text.drop_first();
                law_pattern_matches_part_by_part(first.drop_first(), second, rest);
                if glob(whole, text) {
                    let j = choose|j: int|
                        #![trigger rest.take(j)]
                        0 <= j <= rest.len() && glob(first.drop_first(), rest.take(j)) && glob(
                            second,
                            rest.skip(j),
                        );
                    assert(text.take(j + 1).drop_first() =~= rest.take(j));
                    assert(text.skip(j + 1) =~= rest.skip(j));
                    assert(glob(first, text.take(j + 1)));
                }
                if exists|i: int|
                    #![trigger text.take(i)]
                    0 <= i <= text.len() && glob(first, text.take(i)) && glob(
                        second,
                        text.skip(i),
                    ) {
                    let i = choose|i: int|
                        #![trigger text.take(i)]
                        0 <= i <= text.len() && glob(first, text.take(i)) && glob(
                            second,
                            text.skip(i),
                        );
                    assert(i > 0);
                    assert(text.take(i).drop_first() =~= rest.take(i - 1));
                    assert(text.skip(i) =~= rest.skip(i - 1));
                }
            } else {
                assert forall|i: int| #![trigger text.take(i)] 0 <= i <= text.len() implies !glob(
                    first,
                    text.take(i),
                ) by {
                    assert(text.take(i).len() == 0);
                }
            }
        }
    }
}

proof fn lemma_star_part(first: Chars, second: Chars, text: Chars)
    requires
        first.len() > 0,
        first[0] == '*',
    ensures
        glob(first + second, text) <==> exists|i: int|
            #![trigger text.take(i)]
            0 <= i <= text.len() && glob(first, text.take(i)) && glob(second, text.skip(i)),
    decreases first.len() + text.len(), 0nat,
{
    let whole = first + second;
    let tail = first.drop_first();
    assert(whole.drop_first() =~= tail + second);
    assert(whole[0] == first[0]);
    law_pattern_matches_part_by_part(tail, second, text);
    if text.len() > 0 {
        lemma_star_part(first, second, text.drop_first());
    }
    let rest = text.drop_first();
    if glob(whole, text) {
        if glob(whole.drop_first(), text) {
            let i = choose|i: int|
                #![trigger text.take(i)]
                0 <= i <= text.len() && glob(tail, text.take(i)) && glob(second, text.skip(i));
            assert(glob(first, text.take(i)));
        } else {
            let j = choose|j: int|
                #![trigger rest.take(j)]
                0 <= j <= rest.len() && glob(first, rest.take(j)) && glob(second, rest.skip(j));
            assert(text.take(j + 1).drop_first() =~= rest.take(j));
            assert(text.skip(j + 1) =~= rest.skip(j));
            assert(glob(first, text.take(j + 1)));
        }
    }
    if exists|i: int|
        #![trigger text.take(i)]
        0 <= i <= text.len() && glob(first, text.take(i)) && glob(second, text.skip(i)) {
        let i = choose|i: int|
            #![trigger text.take(i)]
            0 <= i <= text.len() && glob(first, text.take(i)) && glob(second, text.skip(i));
        if glob(tail, text.take(i)) {
            assert(glob(whole.drop_first(), text));
        } else {
            assert(i > 0);
            assert(text.take(i).drop_first() =~= rest.take(i - 1));
            assert(text.skip(i) =~= rest.skip(i - 1));
            assert(glob(whole, rest));
        }
    }
}

/// What each condition of a rule asks for, and that a rule matches exactly where all of them
/// are met: the peer is the named one; the prefix equals the pattern, differs from it, or is
/// matched by it or not; all named ASes are on the AS_PATH; its length, the local preference
/// and the MED, a missing one counting as zero, stand in the asked relation to the asked
/// number; one of the named communities is there, or none of them. What is not asked for is
/// met, and equality is asked for where no operator is named.
pub proof fn law_match_asks_for_what_it_says(m: MatchView, route: RouteView, peer: Chars)
    ensures
        matching(m, route, peer).0 <==> {
            &&& m.peer matches Some(p) ==> p == peer
            &&& m.prefix matches Some(w) ==> match m.prefix_cmp {
                Some(Cmp::Ne) => w != route.prefix,
                Some(Cmp::In) => glob(w, route.prefix),
                Some(Cmp::Matches) => glob(w, route.prefix),
                Some(Cmp::NotIn) => !glob(w, route.prefix),
                _ => w == route.prefix,
            }
            &&& m.as_path_len matches Some(n) ==> match m.as_path_len_cmp {
                Some(Cmp::Ne) => route.as_path.len() != n,
                Some(Cmp::Gte) => route.as_path.len() >= n,
                Some(Cmp::Lte) => route.as_path.len() <= n,
                _ => route.as_path.len() == n,
            }
            &&& forall|i: int|
                0 <= i < m.as_path_contains.len() ==> route.as_path.contains(
                    #[trigger] m.as_path_contains[i],
                )
            &&& m.local_pref matches Some(n) ==> match m.local_pref_cmp {
                Some(Cmp::Ne) => route.local_pref != n,
                Some(Cmp::Gte) => route.local_pref >= n,
                Some(Cmp::Lte) => route.local_pref <= n,
                _ => route.local_pref == n,
            }
            &&& m.med matches Some(n) ==> ({
                let med = if route.med is Some { route.med->0 } else { 0 };
                match m.med_cmp {
                    Some(Cmp::Ne) => med != n,
                    Some(Cmp::Gte) => med >= n,
                    Some(Cmp::Lte) => med <= n,
                    _ => med == n,
                }
            })
            &&& m.community_any.len() > 0 ==> {
                let there = exists|i: int|
                    0 <= i < m.community_any.len() && route.communities.contains(
                        #[trigger] m.community_any[i],
                    );
                if m.community_any_cmp == Some(Cmp::NotIn) {
                    !there
                } else {
                    there
                }
            }
        },
{
    let conds = conditions(m, route, peer);
    law_conditions_are_joined(m, route, peer);
    assert(conds.len() == 7);
    assert(matching(m, route, peer).0 <==> !(conds[0] is Fails) && !(conds[1] is Fails) && !(
    conds[2] is Fails) && !(conds[3] is Fails) && !(conds[4] is Fails) && !(conds[5] is Fails)
        && !(conds[6] is Fails));
    let wanted = m.as_path_contains;
    let absent = |a: u32| !route.as_path.contains(a);
    let missing = missing_from(wanted, route.as_path);
    assert(conds[3] is Fails <==> exists|i: int|
        0 <= i < wanted.len() && !route.as_path.contains(#[trigger] wanted[i])) by {
        if missing.len() > 0 {
            wanted.lemma_filter_pred(absent, 0);
            assert(missing.contains(missing[0]));
            wanted.lemma_filter_contains_rev(absent, missing[0]);
            let i = choose|i: int| 0 <= i < wanted.len() && wanted[i] == missing[0];
            assert(!route.as_path.contains(wanted[i]));
        }
        if exists|i: int| 0 <= i < wanted.len() && !route.as_path.contains(
            #[trigger] wanted[i],
        ) {
            let i = choose|i: int|
                0 <= i < wanted.len() && !route.as_path.contains(#[trigger] wanted[i]);
            wanted.lemma_filter_contains(absent, i);
        }
    }
    let list = m.community_any;
    let any = exists|w: Chars| #[trigger] list.contains(w) && route.communities.contains(w);
    let there = exists|i: int|
        0 <= i < list.len() && route.communities.contains(#[trigger] list[i]);
    assert(any == there) by {
        if any {
            let w = choose|w: Chars| #[trigger] list.contains(w) && route.communities.contains(w);
            let i = choose|i: int| 0 <= i < list.len() && list[i] == w;
            assert(route.communities.contains(list[i]));
        }
        if there {
            let i = choose|i: int|
                0 <= i < list.len() && route.communities.contains(#[trigger] list[i]);
            assert(list.contains(list[i]));
        }
    }
}

/// Under `not-in` a prefix condition is met exactly where it is not met under `in`, and under
/// `matches` exactly where it is met under `in`. A pattern that is the prefix itself, without
/// wildcards, is met under `in`, and `*` always is.
pub proof fn law_not_in_is_the_opposite_of_in(
    m: MatchView,
    pattern: Chars,
    route: RouteView,
    peer: Chars,
)
    requires
        matching(MatchView { prefix: None, ..m }, route, peer).0,
    ensures
        ({
            let under = |op: Cmp|
                matching(
                    MatchView { prefix: Some(pattern), prefix_cmp: Some(op), ..m },
                    route,
                    peer,
                ).0;
            &&& under(Cmp::NotIn) == !under(Cmp::In)
            &&& under(Cmp::Matches) == under(Cmp::In)
            &&& under(Cmp::Ne) == !under(Cmp::Eq)
            &&& pattern == seq!['*'] ==> under(Cmp::In)
            &&& !pattern.contains('*') && !pattern.contains('?') ==> (under(Cmp::In) <==> pattern
                == route.prefix)
        }),
{
    law_match_asks_for_what_it_says(MatchView { prefix: None, ..m }, route, peer);
    let under = |op: Cmp| MatchView { prefix: Some(pattern), prefix_cmp: Some(op), ..m };
    law_match_asks_for_what_it_says(under(Cmp::In), route, peer);
    law_match_asks_for_what_it_says(under(Cmp::NotIn), route, peer);
    law_match_asks_for_what_it_says(under(Cmp::Matches), route, peer);
    law_match_asks_for_what_it_says(under(Cmp::Ne), route, peer);
    law_match_asks_for_what_it_says(under(Cmp::Eq), route, peer);
    law_wildcards(route.prefix);
    if !pattern.contains('*') && !pattern.contains('?') {
        law_literal_pattern_matches_itself(pattern, route.prefix);
    }
}

/// A failed match says why in one fact; a match gives one fact for each condition that the
/// rule asks for.
pub proof fn law_facts_account_for_conditions(m: MatchView, route: RouteView, peer: Chars)
    ensures
        ({
            let (matched, facts) = matching(m, route, peer);
            let asked = (if m.peer is Some { 1int } else { 0 }) + (if m.prefix is Some {
                1int
            } else {
                0
            }) + (if m.as_path_len is Some { 1int } else { 0 }) + (if m.as_path_contains.len()
                > 0 {
                1int
            } else {
                0
            }) + (if m.local_pref is Some { 1int } else { 0 }) + (if m.med is Some {
                1int
            } else {
                0
            }) + (if m.community_any.len() > 0 { 1int } else { 0 });
            &&& !matched ==> facts.len() == 1
            &&& matched ==> facts.len() == asked
        }),
{
    reveal_with_fuel(match_from, 8);
}

/// An action sets local preference and MED to what it says, and leaves them where it says
/// nothing. It takes out the communities that it removes, also one that it adds itself, and
/// appends the one that it adds unless the route carries it; the others stay, in their order.
/// Nothing else of the route changes.
pub proof fn law_action_rewrites_what_it_says(route: RouteView, a: ActionView)
    ensures
        ({
            let out = rewritten(route, a);
            let stays = |c: Chars| !a.remove_communities.contains(c);
            &&& out.local_pref == (if a.set_local_pref is Some {
                a.set_local_pref->0
            } else {
                route.local_pref
            })
            &&& out.med == (if a.set_med is Some { a.set_med } else { route.med })
            &&& out.communities == (if a.add_community is Some && !route.communities.contains(
                a.add_community->0,
            ) && !a.remove_communities.contains(a.add_community->0) {
                route.communities.filter(stays).push(a.add_community->0)
            } else {
                route.communities.filter(stays)
            })
            &&& out.prefix == route.prefix
            &&& out.as_path == route.as_path
            &&& out.provenance == route.provenance
            &&& out.ingress_session == route.ingress_session
            &&& out.first_as == route.first_as
        }),
{
    let stays = |c: Chars| !a.remove_communities.contains(c);
    if let Some(c) = a.add_community {
        route.communities.lemma_filter_push(c, stays);
    }
}

proof fn lemma_trace_shifted_from(
    first: RuleView,
    rest: Seq<RuleView>,
    i: int,
    route: RouteView,
    trace: Seq<RuleTraceEntryView>,
    trace2: Seq<RuleTraceEntryView>,
    base: u32,
    count: u32,
    peer: Chars,
    default: Decision,
)
    requires
        0 <= i,
        rest.len() < usize::MAX,
        trace.len() == trace2.len() + 1,
        trace2.len() == i,
        forall|k: int|
            0 <= k < trace2.len() ==> (#[trigger] trace[k + 1]) == (RuleTraceEntryView {
                index: (k + 1) as usize,
                ..trace2[k]
            }),
    ensures
        ({
            let a = evaluation_from(seq![first] + rest, i + 1, route, trace, base, peer, default);
            let b = evaluation_from(rest, i, route, trace2, count, peer, default);
            &&& a.0.trace.len() == b.0.trace.len() + 1
            &&& a.0.trace[0] == trace[0]
            &&& forall|k: int|
                0 <= k < b.0.trace.len() ==> (#[trigger] a.0.trace[k + 1]) == (
                RuleTraceEntryView { index: (k + 1) as usize, ..b.0.trace[k] })
        }),
    decreases rest.len() - i,
{
    if i < rest.len() {
        let all = seq![first] + rest;
        let rule = rest[i];
        assert(all[i + 1] == rule);
        let longer = trace.push(rule_entry(i + 1, rule, route, peer));
        let longer2 = trace2.push(rule_entry(i, rule, route, peer));
        assert forall|k: int| 0 <= k < longer2.len() implies (#[trigger] longer[k + 1]) == (
        RuleTraceEntryView { index: (k + 1) as usize, ..longer2[k] }) by {
            if k < i {
                assert(longer[k + 1] == trace[k + 1]);
            }
        }
        if !matching(rule.when, route, peer).0 {
            lemma_trace_shifted_from(
                first,
                rest,
                i + 1,
                route,
                longer,
                longer2,
                base,
                count,
                peer,
                default,
            );
        } else if rule.on_match == OnMatch::Continue {
            lemma_trace_shifted_from(
                first,
                rest,
                i + 1,
                rewritten(route, rule.do_),
                longer,
                longer2,
                prepended(base, rule.do_),
                prepended(count, rule.do_),
                peer,
                default,
            );
        }
    }
}

/// A policy without rules decides by its default, leaves the route as it is, asks for no
/// prepends and has nothing to trace.
pub proof fn law_no_rules_leave_the_default(route: RouteView, peer: Chars, default: Decision)
    ensures
        ({
            let a = evaluation(Seq::empty(), route, peer, default);
            &&& a.0.decision == Verdict::Accept <==> default == Decision::Accept
            &&& a.0.defaulted
            &&& a.0.trace.len() == 0
            &&& a.0.reason == (if default == Decision::Accept {
                "no terminating rule matched: policy default accept"@
            } else {
                "no terminating rule matched: policy default reject"@
            })
            &&& a.1 == route
            &&& a.2 == 0
        }),
{
}

/// How the first rule of a policy counts. Where it misses, the rest decides as if it were
/// alone. Where it matches and continues, the rest decides on the rewritten route, and the
/// prepends of both add up, to the largest count at most. Where it matches and terminates, it
/// decides alone. Either way the trace starts with its outcome and goes on with that of the
/// rest.
pub proof fn law_policy_goes_rule_by_rule(
    rule: RuleView,
    rest: Seq<RuleView>,
    route: RouteView,
    peer: Chars,
    default: Decision,
)
    requires
        rest.len() < usize::MAX,
    ensures
        ({
            let a = evaluation(seq![rule] + rest, route, peer, default);
            let hit = matching(rule.when, route, peer).0;
            let asked: int = if rule.do_.as_path_prepend is Some {
                rule.do_.as_path_prepend->0 as int
            } else {
                0
            };
            let met = if hit { rewritten(route, rule.do_) } else { route };
            let b = evaluation(rest, met, peer, default);
            let first = a.0.trace[0];
            &&& a.0.trace.len() > 0
            &&& first.index == 0
            &&& first.rule == rule.id
            &&& first.after == (if hit { Some(met) } else { None })
            &&& first.outcome == (if !hit {
                RuleOutcome::Miss
            } else if rule.on_match == OnMatch::Accept {
                RuleOutcome::HitAccept
            } else if rule.on_match == OnMatch::Reject {
                RuleOutcome::HitReject
            } else {
                RuleOutcome::HitContinue
            })
            &&& !hit || rule.on_match == OnMatch::Continue ==> {
                &&& a.0.decision == b.0.decision
                &&& a.0.reason == b.0.reason
                &&& a.0.defaulted == b.0.defaulted
                &&& a.1 == b.1
                &&& a.0.trace.len() == b.0.trace.len() + 1
                &&& forall|k: int|
                    0 <= k < b.0.trace.len() ==> (#[trigger] a.0.trace[k + 1]) == (
                    RuleTraceEntryView { index: (k + 1) as usize, ..b.0.trace[k] })
            }
            &&& !hit ==> a.2 == b.2
            &&& hit && rule.on_match == OnMatch::Continue ==> a.2 == (if asked + b.2 > u32::MAX {
                u32::MAX as int
            } else {
                asked + b.2
            })
            &&& hit && rule.on_match != OnMatch::Continue ==> {
                &&& a.0.decision == Verdict::Accept <==> rule.on_match == OnMatch::Accept
                &&& a.0.reason == (if rule.on_match == OnMatch::Accept {
                    "rule "@ + rule.id + " terminated accept"@
                } else {
                    "rule "@ + rule.id + " terminated reject"@
                })
                &&& !a.0.defaulted
                &&& a.0.trace.len() == 1
                &&& a.1 == met
                &&& a.2 == asked
            }
        }),
{
    let all = seq![rule] + rest;
    assert(all[0] == rule);
    let entry = rule_entry(0, rule, route, peer);
    let trace = Seq::empty().push(entry);
    if !matching(rule.when, route, peer).0 {
        law_miss_continues(rule, rest, route, peer, default);
        lemma_trace_shifted_from(
            rule,
            rest,
            0,
            route,
            trace,
            Seq::empty(),
            0,
            0,
            peer,
            default,
        );
    } else if rule.on_match == OnMatch::Continue {
        law_rewrites_visible_to_later_rules(rule, rest, route, peer, default);
        lemma_trace_shifted_from(
            rule,
            rest,
            0,
            rewritten(route, rule.do_),
            trace,
            Seq::empty(),
            prepended(0, rule.do_),
            0,
            peer,
            default,
        );
    }
}

} // verus!
