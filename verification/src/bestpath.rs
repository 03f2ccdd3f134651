//! Deterministic best-path selection.
//!
//! Stage order:
//! 1. highest LOCAL_PREF
//! 2. shortest AS_PATH
//! 3. lowest origin type (origin < eBGP < iBGP)
//! 4. lowest MED, only compared when the neighboring AS (leftmost AS_PATH) is equal
//! 5. eBGP over iBGP
//! 6. lowest ingress neighbor id (router id)
//! 7. final lexicographic tie-break over (BGP attributes, ingress identity)
//!
//! A candidate whose BGP attributes are identical to those of the winner is reported as
//! `equal_peer`: the winner, its key and its equal peer are still unique and do not depend
//! on the order in which the candidates come.

use crate::model::{NodeId, Provenance, Route, RouteView, SessionId};
use crate::signature::{lemma_within_ends, lemma_within_self, within};
use crate::text::{
    decimal, decimals, i64_text, join, join_strs, sort_strs, sorted, str_eq, str_less, str_lt,
    u32_texts, usize_text, Chars,
};
use crate::value::{push_to, Value};
use vstd::prelude::*;

verus! {

/// A route that may become the best one, with where it came from.
#[derive(Clone, Debug, PartialEq, Eq)]
pub struct Candidate {
    /// The neighbor that sent the route, or the node itself where it originates the route.
    pub node: NodeId,
    pub ingress_session: Option<SessionId>,
    pub route: Route,
}

/// What a [`Candidate`] holds.
#[verifier::ext_equal]
pub struct CandidateView {
    pub node: Chars,
    pub ingress_session: Option<Chars>,
    pub route: RouteView,
}

impl View for Candidate {
    type V = CandidateView;

    open spec fn view(&self) -> CandidateView {
        CandidateView {
            node: self.node.deep_view(),
            ingress_session: self.ingress_session.deep_view(),
            route: self.route.deep_view(),
        }
    }
}

impl DeepView for Candidate {
    type V = CandidateView;

    open spec fn deep_view(&self) -> CandidateView {
        self@
    }
}

impl Value for Candidate {
    fn copy(&self) -> (r: Self) {
        Candidate {
            node: self.node.copy(),
            ingress_session: self.ingress_session.copy(),
            route: self.route.copy(),
        }
    }

    fn same(&self, other: &Self) -> (r: bool) {
        self.node.same(&other.node)
            && self.ingress_session.same(&other.ingress_session)
            && self.route.same(&other.route)
    }
}

/// What one stage kept.
#[derive(Clone, Debug, PartialEq, Eq)]
pub struct StageReport {
    pub stage: usize,
    pub name: String,
    pub detail: String,
    pub retained: Vec<String>,
}

/// What a [`StageReport`] holds.
#[verifier::ext_equal]
pub struct StageReportView {
    pub stage: usize,
    pub name: Chars,
    pub detail: Chars,
    pub retained: Seq<Chars>,
}

impl View for StageReport {
    type V = StageReportView;

    open spec fn view(&self) -> StageReportView {
        StageReportView {
            stage: self.stage,
            name: self.name.deep_view(),
            detail: self.detail.deep_view(),
            retained: self.retained.deep_view(),
        }
    }
}

impl DeepView for StageReport {
    type V = StageReportView;

    open spec fn deep_view(&self) -> StageReportView {
        self@
    }
}

impl Value for StageReport {
    fn copy(&self) -> (r: Self) {
        StageReport {
            stage: self.stage,
            name: self.name.copy(),
            detail: self.detail.copy(),
            retained: self.retained.copy(),
        }
    }

    fn same(&self, other: &Self) -> (r: bool) {
        self.stage == other.stage
            && self.name.same(&other.name)
            && self.detail.same(&other.detail)
            && self.retained.same(&other.retained)
    }
}

/// The selection with the evidence of every stage.
#[derive(Clone, Debug, PartialEq, Eq)]
pub struct SelectionReport {
    pub winner: Option<String>,
    /// Another candidate with identical BGP attributes to the winner, separated only by
    /// the stable ingress-identity tie-break.
    pub equal_peer: Option<String>,
    pub stages: Vec<StageReport>,
    pub tie_key_winner: Option<String>,
}

/// What a [`SelectionReport`] holds.
#[verifier::ext_equal]
pub struct SelectionReportView {
    pub winner: Option<Chars>,
    pub equal_peer: Option<Chars>,
    pub stages: Seq<StageReportView>,
    pub tie_key_winner: Option<Chars>,
}

impl View for SelectionReport {
    type V = SelectionReportView;

    open spec fn view(&self) -> SelectionReportView {
        SelectionReportView {
            winner: self.winner.deep_view(),
            equal_peer: self.equal_peer.deep_view(),
            stages: self.stages.deep_view(),
            tie_key_winner: self.tie_key_winner.deep_view(),
        }
    }
}

impl DeepView for SelectionReport {
    type V = SelectionReportView;

    open spec fn deep_view(&self) -> SelectionReportView {
        self@
    }
}

impl Value for SelectionReport {
    fn copy(&self) -> (r: Self) {
        SelectionReport {
            winner: self.winner.copy(),
            equal_peer: self.equal_peer.copy(),
            stages: self.stages.copy(),
            tie_key_winner: self.tie_key_winner.copy(),
        }
    }

    fn same(&self, other: &Self) -> (r: bool) {
        self.winner.same(&other.winner)
            && self.equal_peer.same(&other.equal_peer)
            && self.stages.same(&other.stages)
            && self.tie_key_winner.same(&other.tie_key_winner)
    }
}

// ---------- keys ----------

/// Whether two routes have the same BGP attributes. A missing MED counts as zero, and
/// the order of communities does not count.
pub open spec fn same_attributes(a: RouteView, b: RouteView) -> bool {
    &&& a.prefix == b.prefix
    &&& a.local_pref == b.local_pref
    &&& a.as_path == b.as_path
    &&& a.med_or_zero() == b.med_or_zero()
    &&& a.provenance == b.provenance
    &&& sorted(a.communities) == sorted(b.communities)
}

fn attributes_equal(a: &Route, b: &Route) -> (r: bool)
    ensures
        r == same_attributes(a@, b@),
{
    a.prefix.same(&b.prefix) && a.local_pref == b.local_pref && a.as_path.same(&b.as_path)
        && a.med_or_zero() == b.med_or_zero() && a.provenance == b.provenance && sort_strs(
        a.communities.copy(),
    ).same(&sort_strs(b.communities.copy()))
}

/// The text of the BGP attributes in the tie-break key. Ingress identity is not part of it.
pub open spec fn attribute_text(c: CandidateView) -> Chars {
    c.route.prefix + "|"@ + decimal(c.route.local_pref as int) + "|"@ + join(
        decimals(c.route.as_path),
        " "@,
    ) + "|"@ + decimal(c.route.med_or_zero() as int) + "|"@ + c.route.provenance.name() + "|"@
        + join(sorted(c.route.communities), ","@)
}

/// Where a candidate came in: its session, or the node that originates it.
pub open spec fn ingress_text(c: CandidateView) -> Chars {
    match c.ingress_session {
        Some(s) => s,
        None => "origin@"@ + c.node,
    }
}

/// The final tie-break key; folds ingress identity.
pub open spec fn tie_text(c: CandidateView) -> Chars {
    attribute_text(c) + "|"@ + ingress_text(c) + "|"@ + c.node
}

fn attribute_key(c: &Candidate) -> (r: String)
    ensures
        r@ == attribute_text(c@),
{
    let path = join_strs(&u32_texts(&c.route.as_path), " ");
    let communities = join_strs(&sort_strs(c.route.communities.copy()), ",");
    assert(c.route.as_path.deep_view() =~= c.route.as_path@);
    c.route.prefix.clone().concat("|").concat(i64_text(c.route.local_pref).as_str()).concat(
        "|",
    ).concat(path.as_str()).concat("|").concat(i64_text(c.route.med_or_zero()).as_str()).concat(
        "|",
    ).concat(c.route.provenance.as_str()).concat("|").concat(communities.as_str())
}

fn candidate_key(c: &Candidate) -> (r: String)
    ensures
        r@ == tie_text(c@),
{
    let ingress = match &c.ingress_session {
        Some(s) => s.clone(),
        None => "origin@".to_owned().concat(c.node.as_str()),
    };
    attribute_key(c).concat("|").concat(ingress.as_str()).concat("|").concat(c.node.as_str())
}

// ---------- stages ----------

/// The stages that rank the candidates by a number.
#[derive(Clone, Copy, Debug, PartialEq, Eq, Structural)]
pub enum Stage {
    LocalPref,
    AsPathLength,
    OriginType,
    Med,
    EbgpOverIbgp,
}

impl Stage {
    pub open spec fn number(self) -> usize {
        match self {
            Stage::LocalPref => 1,
            Stage::AsPathLength => 2,
            Stage::OriginType => 3,
            Stage::Med => 4,
            Stage::EbgpOverIbgp => 5,
        }
    }

    pub open spec fn name(self) -> Chars {
        match self {
            Stage::LocalPref => "local-pref"@,
            Stage::AsPathLength => "as-path-length"@,
            Stage::OriginType => "origin-type"@,
            Stage::Med => "med"@,
            Stage::EbgpOverIbgp => "ebgp-over-ibgp"@,
        }
    }

    pub open spec fn detail(self) -> Chars {
        match self {
            Stage::LocalPref => "highest LOCAL_PREF wins"@,
            Stage::AsPathLength => "shortest AS_PATH wins"@,
            Stage::OriginType => "origin < eBGP < iBGP"@,
            Stage::Med => "same neighboring AS: lowest MED wins (missing MED = 0)"@,
            Stage::EbgpOverIbgp => "eBGP-learned preferred over iBGP-learned"@,
        }
    }

    /// What a stage ranks a candidate by; the lowest rank stays.
    pub open spec fn rank_of(self, c: CandidateView) -> int {
        match self {
            Stage::LocalPref => -c.route.local_pref,
            Stage::AsPathLength => c.route.as_path.len() as int,
            Stage::OriginType => c.route.provenance.rank_of() as int,
            Stage::Med => c.route.med_or_zero() as int,
            Stage::EbgpOverIbgp => if c.route.provenance == Provenance::EBgp {
                0
            } else {
                1
            },
        }
    }

    fn report(self, retained: Vec<String>) -> (r: StageReport)
        ensures
            r@ == stage_report(self, retained.deep_view()),
    {
        let (stage, name, detail): (usize, &str, &str) = match self {
            Stage::LocalPref => (1, "local-pref", "highest LOCAL_PREF wins"),
            Stage::AsPathLength => (2, "as-path-length", "shortest AS_PATH wins"),
            Stage::OriginType => (3, "origin-type", "origin < eBGP < iBGP"),
            Stage::Med => (4, "med", "same neighboring AS: lowest MED wins (missing MED = 0)"),
            Stage::EbgpOverIbgp => (
                5,
                "ebgp-over-ibgp",
                "eBGP-learned preferred over iBGP-learned",
            ),
        };
        StageReport { stage, name: name.to_owned(), detail: detail.to_owned(), retained }
    }

    fn rank(self, c: &Candidate) -> (r: i128)
        ensures
            r == self.rank_of(c@),
    {
        assert(c.route.as_path.deep_view() =~= c.route.as_path@);
        match self {
            Stage::LocalPref => -(c.route.local_pref as i128),
            Stage::AsPathLength => c.route.as_path.len() as i128,
            Stage::OriginType => c.route.provenance.rank() as i128,
            Stage::Med => c.route.med_or_zero() as i128,
            Stage::EbgpOverIbgp => if c.route.provenance == Provenance::EBgp {
                0
            } else {
                1
            },
        }
    }
}

/// Whether no candidate of a pool ranks below another one at a stage.
pub open spec fn ranks_lowest(pool: Seq<CandidateView>, stage: Stage, c: CandidateView) -> bool {
    forall|k: int| 0 <= k < pool.len() ==> stage.rank_of(c) <= stage.rank_of(#[trigger] pool[k])
}

/// The candidates that a stage keeps, in their order.
pub open spec fn kept(pool: Seq<CandidateView>, stage: Stage) -> Seq<CandidateView> {
    pool.filter(|c: CandidateView| ranks_lowest(pool, stage, c))
}

/// The neighbors of a pool, in order.
pub open spec fn neighbors(pool: Seq<CandidateView>) -> Seq<Chars> {
    pool.map_values(|c: CandidateView| c.node)
}

/// The evidence of a stage.
pub open spec fn stage_report(stage: Stage, retained: Seq<Chars>) -> StageReportView {
    StageReportView {
        stage: stage.number(),
        name: stage.name(),
        detail: stage.detail(),
        retained,
    }
}

/// Whether MEDs may be compared: all routes come from one neighboring AS.
pub open spec fn one_neighbor_as(pool: Seq<CandidateView>) -> bool {
    forall|i: int|
        0 <= i < pool.len() ==> (#[trigger] pool[i]).route.neighbor_as()
            == pool[0].route.neighbor_as()
}

/// The candidates after the MED stage.
pub open spec fn after_med(pool: Seq<CandidateView>) -> Seq<CandidateView> {
    if one_neighbor_as(pool) {
        kept(pool, Stage::Med)
    } else {
        pool
    }
}

/// The evidence of the MED stage.
pub open spec fn med_report(pool: Seq<CandidateView>) -> StageReportView {
    if one_neighbor_as(pool) {
        stage_report(Stage::Med, neighbors(kept(pool, Stage::Med)))
    } else {
        StageReportView {
            stage: 4,
            name: "med"@,
            detail: "skipped: routes come from different neighboring ASes"@,
            retained: neighbors(pool),
        }
    }
}

/// The candidates with the lowest neighbor id, in their order.
pub open spec fn lowest_neighbor(pool: Seq<CandidateView>) -> Seq<CandidateView> {
    pool.filter(
        |c: CandidateView|
            forall|k: int| 0 <= k < pool.len() ==> !str_lt((#[trigger] pool[k]).node, c.node),
    )
}

/// The first candidate that no other one of the pool precedes by its tie-break key.
pub open spec fn lowest_key(pool: Seq<CandidateView>) -> CandidateView
    decreases pool.len(),
{
    if pool.len() <= 1 {
        pool[0]
    } else {
        let best = lowest_key(pool.drop_last());
        if str_lt(tie_text(pool.last()), tie_text(best)) {
            pool.last()
        } else {
            best
        }
    }
}

/// Whether a candidate comes from the winner's neighbor with the winner's tie-break key, so
/// that nothing but its place in the pool tells it from the winner.
pub open spec fn shares_win(c: CandidateView, winner: CandidateView) -> bool {
    c.node == winner.node && tie_text(c) == tie_text(winner)
}

/// Whether a candidate comes from another neighbor than the winner's and has the attributes
/// of the winner, or of a candidate that shares the win.
pub open spec fn equals_winner(
    pool: Seq<CandidateView>,
    winner: CandidateView,
    c: CandidateView,
) -> bool {
    c.node != winner.node && exists|i: int|
        0 <= i < pool.len() && shares_win(#[trigger] pool[i], winner) && same_attributes(
            c.route,
            pool[i].route,
        )
}

/// The neighbors, other than the winner's, whose candidates have the winner's attributes.
pub open spec fn equal_neighbors(pool: Seq<CandidateView>, winner: CandidateView) -> Seq<Chars> {
    neighbors(pool.filter(|c: CandidateView| equals_winner(pool, winner, c)))
}

/// The lowest text of a list.
pub open spec fn lowest_text(list: Seq<Chars>) -> Option<Chars>
    decreases list.len(),
{
    if list.len() == 0 {
        None
    } else {
        match lowest_text(list.drop_last()) {
            Some(best) => if str_lt(list.last(), best) {
                Some(list.last())
            } else {
                Some(best)
            },
            None => Some(list.last()),
        }
    }
}

/// The evidence of the pool that the selection starts from.
pub open spec fn pool_report(pool: Seq<CandidateView>) -> StageReportView {
    StageReportView {
        stage: 0,
        name: "candidates"@,
        detail: decimal(pool.len() as int) + " eligible route(s) in Adj-RIB-In"@,
        retained: neighbors(pool),
    }
}

/// The evidence of the stage that compares neighbor ids.
pub open spec fn neighbor_report(pool: Seq<CandidateView>) -> StageReportView {
    StageReportView {
        stage: 6,
        name: "router-id"@,
        detail: "lowest ingress neighbor id wins"@,
        retained: neighbors(lowest_neighbor(pool)),
    }
}

/// The evidence of the final tie-break.
pub open spec fn tie_report(winner: CandidateView) -> StageReportView {
    StageReportView {
        stage: 7,
        name: "deterministic-tie-break"@,
        detail: "stable lexicographic key over (BGP attributes, ingress session, neighbor id)"@,
        retained: seq![winner.node],
    }
}

// ---------- selection ----------

/// A selection: the evidence and the winning candidate.
pub type Selection = (SelectionReportView, Option<CandidateView>);

/// A winner that attributes alone have singled out: nothing is equal to it.
pub open spec fn single(pool: Seq<CandidateView>, stages: Seq<StageReportView>) -> Selection {
    (
        SelectionReportView {
            winner: Some(pool[0].node),
            equal_peer: None,
            stages,
            tie_key_winner: Some(tie_text(pool[0])),
        },
        Some(pool[0]),
    )
}

/// The stages that compare ingress identity.
pub open spec fn by_identity(pool: Seq<CandidateView>, stages: Seq<StageReportView>) -> Selection {
    let winner = lowest_key(lowest_neighbor(pool));
    (
        SelectionReportView {
            winner: Some(winner.node),
            equal_peer: lowest_text(equal_neighbors(pool, winner)),
            stages: stages.push(neighbor_report(pool)).push(tie_report(winner)),
            tie_key_winner: Some(tie_text(winner)),
        },
        Some(winner),
    )
}

/// The stages from eBGP over iBGP on.
pub open spec fn from_ebgp(pool: Seq<CandidateView>, stages: Seq<StageReportView>) -> Selection {
    let next = kept(pool, Stage::EbgpOverIbgp);
    let longer = stages.push(stage_report(Stage::EbgpOverIbgp, neighbors(next)));
    if next.len() == 1 {
        single(next, longer)
    } else {
        by_identity(next, longer)
    }
}

/// The stages from MED on. A single route is a winner here only where MEDs were compared.
pub open spec fn from_med(pool: Seq<CandidateView>, stages: Seq<StageReportView>) -> Selection {
    let next = after_med(pool);
    let longer = stages.push(med_report(pool));
    if next.len() == 1 {
        single(next, longer)
    } else {
        from_ebgp(next, longer)
    }
}

/// The stages from the origin type on.
pub open spec fn from_origin_type(
    pool: Seq<CandidateView>,
    stages: Seq<StageReportView>,
) -> Selection {
    let next = kept(pool, Stage::OriginType);
    let longer = stages.push(stage_report(Stage::OriginType, neighbors(next)));
    if next.len() == 1 {
        single(next, longer)
    } else {
        from_med(next, longer)
    }
}

/// The stages from the AS_PATH length on.
pub open spec fn from_as_path(pool: Seq<CandidateView>, stages: Seq<StageReportView>) -> Selection {
    let next = kept(pool, Stage::AsPathLength);
    let longer = stages.push(stage_report(Stage::AsPathLength, neighbors(next)));
    if next.len() == 1 {
        single(next, longer)
    } else {
        from_origin_type(next, longer)
    }
}

/// The selection among candidates.
pub open spec fn selection(pool: Seq<CandidateView>) -> Selection {
    if pool.len() == 0 {
        (
            SelectionReportView {
                winner: None,
                equal_peer: None,
                stages: Seq::empty(),
                tie_key_winner: None,
            },
            None,
        )
    } else {
        let next = kept(pool, Stage::LocalPref);
        let stages = seq![
            pool_report(pool),
            stage_report(Stage::LocalPref, neighbors(next)),
        ];
        if next.len() == 1 {
            single(next, stages)
        } else {
            from_as_path(next, stages)
        }
    }
}

/// The candidates that a list of positions names.
pub open spec fn picked(all: Seq<CandidateView>, at: Seq<usize>) -> Seq<CandidateView> {
    at.map_values(|i: usize| all[i as int])
}

/// Whether positions lie in a list.
pub open spec fn in_range(at: Seq<usize>, n: nat) -> bool {
    forall|k: int| 0 <= k < at.len() ==> #[trigger] at[k] < n
}

proof fn lemma_picked_push(all: Seq<CandidateView>, at: Seq<usize>, i: usize)
    ensures
        picked(all, at.push(i)) == picked(all, at).push(all[i as int]),
{
    assert(picked(all, at.push(i)) =~= picked(all, at).push(all[i as int]));
}

/// The neighbors at some positions.
fn retained(all: &Vec<Candidate>, at: &Vec<usize>) -> (r: Vec<String>)
    requires
        in_range(at@, all@.len()),
    ensures
        r.deep_view() == neighbors(picked(all.deep_view(), at@)),
{
    let mut out: Vec<String> = Vec::new();
    let mut k: usize = 0;
    while k < at.len()
        invariant
            k <= at@.len(),
            in_range(at@, all@.len()),
            out@.len() == k,
            forall|j: int| 0 <= j < k ==> (#[trigger] out@[j])@ == all@[at@[j] as int].node@,
        decreases at.len() - k,
    {
        out.push(all[at[k]].node.clone());
        k += 1;
    }
    assert(out.deep_view() =~= neighbors(picked(all.deep_view(), at@)));
    out
}

/// Keeps the positions of the candidates that rank lowest at a stage.
fn reduce(all: &Vec<Candidate>, at: &Vec<usize>, stage: Stage) -> (r: Vec<usize>)
    requires
        in_range(at@, all@.len()),
        at@.len() > 0,
    ensures
        in_range(r@, all@.len()),
        picked(all.deep_view(), r@) == kept(picked(all.deep_view(), at@), stage),
        r@.len() > 0,
{
    let ghost views = all.deep_view();
    let ghost pool = picked(views, at@);
    let mut best: i128 = stage.rank(&all[at[0]]);
    let ghost mut witness: int = 0;
    let mut k: usize = 0;
    while k < at.len()
        invariant
            k <= at@.len(),
            at@.len() > 0,
            in_range(at@, all@.len()),
            views == all.deep_view(),
            pool == picked(views, at@),
            0 <= witness < pool.len(),
            best == stage.rank_of(pool[witness]),
            forall|j: int| 0 <= j < k ==> best <= stage.rank_of(#[trigger] pool[j]),
        decreases at.len() - k,
    {
        assert(pool[k as int] == all@[at@[k as int] as int]@);
        let rank = stage.rank(&all[at[k]]);
        if rank < best {
            best = rank;
            proof {
                witness = k as int;
            }
        }
        k += 1;
    }
    let ghost stays = |c: CandidateView| ranks_lowest(pool, stage, c);
    proof {
        assert forall|c: CandidateView| pool.contains(c) implies #[trigger] ranks_lowest(
            pool,
            stage,
            c,
        ) == (stage.rank_of(c) == best) by {
            let j = choose|j: int| 0 <= j < pool.len() && pool[j] == c;
            assert(best <= stage.rank_of(pool[j]));
            if ranks_lowest(pool, stage, c) {
                assert(stage.rank_of(c) <= stage.rank_of(pool[witness]));
            }
        }
    }
    let mut out: Vec<usize> = Vec::new();
    let mut k: usize = 0;
    assert(picked(views, out@) =~= pool.take(0).filter(stays)) by {
        reveal(Seq::filter);
    }
    while k < at.len()
        invariant
            k <= at@.len(),
            in_range(at@, all@.len()),
            in_range(out@, all@.len()),
            views == all.deep_view(),
            pool == picked(views, at@),
            0 <= witness < pool.len(),
            best == stage.rank_of(pool[witness]),
            stays == (|c: CandidateView| ranks_lowest(pool, stage, c)),
            forall|c: CandidateView|
                pool.contains(c) ==> #[trigger] ranks_lowest(pool, stage, c) == (stage.rank_of(c)
                    == best),
            picked(views, out@) == pool.take(k as int).filter(stays),
            k > witness ==> out@.len() > 0,
        decreases at.len() - k,
    {
        let i = at[k];
        proof {
            assert(pool[k as int] == all@[i as int]@);
            assert(pool.contains(pool[k as int]));
            assert(pool.take(k + 1) =~= pool.take(k as int).push(pool[k as int]));
            pool.take(k as int).lemma_filter_push(pool[k as int], stays);
            lemma_picked_push(views, out@, i);
        }
        if stage.rank(&all[i]) == best {
            out.push(i);
        }
        k += 1;
    }
    assert(pool.take(k as int) =~= pool);
    out
}

/// Whether all routes at some positions come from one neighboring AS.
fn med_comparable(all: &Vec<Candidate>, at: &Vec<usize>) -> (r: bool)
    requires
        in_range(at@, all@.len()),
        at@.len() > 0,
    ensures
        r == one_neighbor_as(picked(all.deep_view(), at@)),
{
    let ghost pool = picked(all.deep_view(), at@);
    let first = all[at[0]].route.neighbor_as();
    assert(pool[0] == all@[at@[0] as int]@);
    let mut k: usize = 0;
    while k < at.len()
        invariant
            k <= at@.len(),
            at@.len() > 0,
            in_range(at@, all@.len()),
            pool == picked(all.deep_view(), at@),
            first == pool[0].route.neighbor_as(),
            forall|j: int| 0 <= j < k ==> (#[trigger] pool[j]).route.neighbor_as() == first,
        decreases at.len() - k,
    {
        assert(pool[k as int] == all@[at@[k as int] as int]@);
        if !all[at[k]].route.neighbor_as().same(&first) {
            return false;
        }
        k += 1;
    }
    true
}

/// Keeps the positions of the candidates with the lowest neighbor id.
fn reduce_neighbor(all: &Vec<Candidate>, at: &Vec<usize>) -> (r: Vec<usize>)
    requires
        in_range(at@, all@.len()),
        at@.len() > 0,
    ensures
        in_range(r@, all@.len()),
        picked(all.deep_view(), r@) == lowest_neighbor(picked(all.deep_view(), at@)),
        r@.len() > 0,
{
    let ghost views = all.deep_view();
    let ghost pool = picked(views, at@);
    let mut best: usize = at[0];
    let ghost mut witness: int = 0;
    let mut k: usize = 0;
    proof {
        crate::text::lemma_str_lt_irreflexive(pool[0].node);
    }
    while k < at.len()
        invariant
            k <= at@.len(),
            at@.len() > 0,
            in_range(at@, all@.len()),
            views == all.deep_view(),
            pool == picked(views, at@),
            0 <= witness < pool.len(),
            best == at@[witness],
            forall|j: int| 0 <= j < k ==> !str_lt((#[trigger] pool[j]).node, pool[witness].node),
        decreases at.len() - k,
    {
        assert(pool[k as int] == all@[at@[k as int] as int]@);
        assert(pool[witness] == all@[best as int]@);
        if str_less(all[at[k]].node.as_str(), all[best].node.as_str()) {
            proof {
                let low = pool[k as int].node;
                let old_low = pool[witness].node;
                crate::text::lemma_str_lt_irreflexive(low);
                assert forall|j: int| 0 <= j < k + 1 implies !str_lt(
                    (#[trigger] pool[j]).node,
                    low,
                ) by {
                    if str_lt(pool[j].node, low) {
                        crate::text::lemma_str_lt_transitive(pool[j].node, low, old_low);
                    }
                }
                witness = k as int;
            }
            best = at[k];
        }
        k += 1;
    }
    let ghost stays = |c: CandidateView|
        forall|k: int| 0 <= k < pool.len() ==> !str_lt((#[trigger] pool[k]).node, c.node);
    let ghost low = pool[witness].node;
    proof {
        assert forall|c: CandidateView| pool.contains(c) implies #[trigger] stays(c) == (c.node
            == low) by {
            if c.node != low {
                crate::text::lemma_str_lt_connected(c.node, low);
                let j = choose|j: int| 0 <= j < pool.len() && pool[j] == c;
                assert(!str_lt(pool[j].node, low));
                assert(str_lt(pool[witness].node, c.node));
            }
        }
    }
    let mut out: Vec<usize> = Vec::new();
    let mut k: usize = 0;
    assert(picked(views, out@) =~= pool.take(0).filter(stays)) by {
        reveal(Seq::filter);
    }
    while k < at.len()
        invariant
            k <= at@.len(),
            in_range(at@, all@.len()),
            in_range(out@, all@.len()),
            best < all@.len(),
            views == all.deep_view(),
            pool == picked(views, at@),
            0 <= witness < pool.len(),
            best == at@[witness],
            low == pool[witness].node,
            forall|c: CandidateView| pool.contains(c) ==> #[trigger] stays(c) == (c.node == low),
            picked(views, out@) == pool.take(k as int).filter(stays),
            k > witness ==> out@.len() > 0,
        decreases at.len() - k,
    {
        let i = at[k];
        proof {
            assert(pool[k as int] == all@[i as int]@);
            assert(pool[witness] == all@[best as int]@);
            assert(pool.contains(pool[k as int]));
            assert(stays(pool[k as int]) == (pool[k as int].node == low));
            assert(pool.take(k + 1) =~= pool.take(k as int).push(pool[k as int]));
            pool.take(k as int).lemma_filter_push(pool[k as int], stays);
            lemma_picked_push(views, out@, i);
        }
        if str_eq(all[i].node.as_str(), all[best].node.as_str()) {
            out.push(i);
        }
        k += 1;
    }
    assert(pool.take(k as int) =~= pool);
    out
}

/// The position of the candidate with the lowest tie-break key.
fn lowest(all: &Vec<Candidate>, at: &Vec<usize>) -> (r: usize)
    requires
        in_range(at@, all@.len()),
        at@.len() > 0,
    ensures
        r < all@.len(),
        all@[r as int]@ == lowest_key(picked(all.deep_view(), at@)),
{
    let ghost pool = picked(all.deep_view(), at@);
    let mut best: usize = at[0];
    let mut best_key = candidate_key(&all[best]);
    let mut k: usize = 1;
    assert(pool[0] == all@[best as int]@);
    assert(pool.take(1)[0] == pool[0]);
    while k < at.len()
        invariant
            1 <= k <= at@.len(),
            in_range(at@, all@.len()),
            pool == picked(all.deep_view(), at@),
            best < all@.len(),
            all@[best as int]@ == lowest_key(pool.take(k as int)),
            best_key@ == tie_text(all@[best as int]@),
        decreases at.len() - k,
    {
        assert(pool[k as int] == all@[at@[k as int] as int]@);
        assert(pool.take(k + 1).drop_last() =~= pool.take(k as int));
        let key = candidate_key(&all[at[k]]);
        if str_less(key.as_str(), best_key.as_str()) {
            best = at[k];
            best_key = key;
        }
        k += 1;
    }
    assert(pool.take(k as int) =~= pool);
    best
}

/// Whether a candidate of another neighbor has the attributes of the winner, or of one that
/// shares the win.
fn matches_winner(all: &Vec<Candidate>, at: &Vec<usize>, winner: usize, c: &Candidate) -> (r: bool)
    requires
        in_range(at@, all@.len()),
        winner < all@.len(),
    ensures
        r == equals_winner(picked(all.deep_view(), at@), all@[winner as int]@, c@),
{
    let ghost pool = picked(all.deep_view(), at@);
    let won = &all[winner];
    if str_eq(c.node.as_str(), won.node.as_str()) {
        return false;
    }
    let key = candidate_key(won);
    let mut k: usize = 0;
    while k < at.len()
        invariant
            k <= at@.len(),
            in_range(at@, all@.len()),
            winner < all@.len(),
            won == &all@[winner as int],
            pool == picked(all.deep_view(), at@),
            c@.node != won@.node,
            key@ == tie_text(won@),
            forall|i: int|
                0 <= i < k ==> !(shares_win(#[trigger] pool[i], won@) && same_attributes(
                    c@.route,
                    pool[i].route,
                )),
        decreases at.len() - k,
    {
        let w = &all[at[k]];
        assert(pool[k as int] == w@);
        if str_eq(w.node.as_str(), won.node.as_str()) && attributes_equal(&c.route, &w.route)
            && str_eq(candidate_key(w).as_str(), key.as_str()) {
            assert(shares_win(pool[k as int], won@));
            return true;
        }
        k += 1;
    }
    false
}

/// The lowest neighbor, other than the winner's, with the winner's attributes.
fn equal_peer_of(all: &Vec<Candidate>, at: &Vec<usize>, winner: usize) -> (r: Option<String>)
    requires
        in_range(at@, all@.len()),
        winner < all@.len(),
    ensures
        r.deep_view() == lowest_text(
            equal_neighbors(picked(all.deep_view(), at@), all@[winner as int]@),
        ),
{
    let ghost views = all.deep_view();
    let ghost pool = picked(views, at@);
    let ghost won = all@[winner as int]@;
    let ghost equal = |c: CandidateView| equals_winner(pool, won, c);
    let mut best: Option<String> = None;
    let mut k: usize = 0;
    assert(neighbors(pool.take(0).filter(equal)) =~= Seq::empty()) by {
        reveal(Seq::filter);
    }
    while k < at.len()
        invariant
            k <= at@.len(),
            in_range(at@, all@.len()),
            winner < all@.len(),
            views == all.deep_view(),
            pool == picked(views, at@),
            won == all@[winner as int]@,
            equal == (|c: CandidateView| equals_winner(pool, won, c)),
            best.deep_view() == lowest_text(neighbors(pool.take(k as int).filter(equal))),
        decreases at.len() - k,
    {
        let c = &all[at[k]];
        let ghost before = neighbors(pool.take(k as int).filter(equal));
        let ghost after = neighbors(pool.take(k + 1).filter(equal));
        proof {
            assert(pool[k as int] == c@);
            assert(pool.take(k + 1) =~= pool.take(k as int).push(pool[k as int]));
            pool.take(k as int).lemma_filter_push(pool[k as int], equal);
            if equal(c@) {
                assert(after =~= before.push(c.node@));
                assert(after.drop_last() =~= before);
            }
        }
        if matches_winner(all, at, winner, c) {
            assert(equal(c@));
            best = match best {
                Some(low) => if str_less(c.node.as_str(), low.as_str()) {
                    Some(c.node.clone())
                } else {
                    Some(low)
                },
                None => Some(c.node.clone()),
            };
        }
        k += 1;
    }
    assert(pool.take(k as int) =~= pool);
    best
}

/// The selection that a report and the position of the winner stand for.
pub open spec fn chosen(
    report: SelectionReport,
    winner: Option<usize>,
    all: Seq<Candidate>,
) -> Selection {
    (
        report@,
        match winner {
            Some(i) => Some(all[i as int]@),
            None => None,
        },
    )
}

fn finish(all: &Vec<Candidate>, at: &Vec<usize>, stages: Vec<StageReport>) -> (r: (
    SelectionReport,
    Option<usize>,
))
    requires
        in_range(at@, all@.len()),
        at@.len() == 1,
    ensures
        r.1 matches Some(i) && i < all@.len(),
        chosen(r.0, r.1, all@) == single(picked(all.deep_view(), at@), stages.deep_view()),
{
    let winner = at[0];
    assert(picked(all.deep_view(), at@)[0] == all@[winner as int]@);
    (
        SelectionReport {
            winner: Some(all[winner].node.clone()),
            equal_peer: None,
            stages,
            tie_key_winner: Some(candidate_key(&all[winner])),
        },
        Some(winner),
    )
}

fn finish_by_identity(all: &Vec<Candidate>, at: &Vec<usize>, stages: Vec<StageReport>) -> (r: (
    SelectionReport,
    Option<usize>,
))
    requires
        in_range(at@, all@.len()),
        at@.len() > 0,
    ensures
        r.1 matches Some(i) && i < all@.len(),
        chosen(r.0, r.1, all@) == by_identity(picked(all.deep_view(), at@), stages.deep_view()),
{
    let mut stages = stages;
    let nearest = reduce_neighbor(all, at);
    push_to(
        &mut stages,
        StageReport {
            stage: 6,
            name: "router-id".to_owned(),
            detail: "lowest ingress neighbor id wins".to_owned(),
            retained: retained(all, &nearest),
        },
    );
    let winner = lowest(all, &nearest);
    let mut only: Vec<String> = Vec::new();
    only.push(all[winner].node.clone());
    assert(only.deep_view() =~= seq![all@[winner as int]@.node]);
    push_to(
        &mut stages,
        StageReport {
            stage: 7,
            name: "deterministic-tie-break".to_owned(),
            detail:
                "stable lexicographic key over (BGP attributes, ingress session, neighbor id)".to_owned(),
            retained: only,
        },
    );
    let equal_peer = equal_peer_of(all, at, winner);
    (
        SelectionReport {
            winner: Some(all[winner].node.clone()),
            equal_peer,
            stages,
            tie_key_winner: Some(candidate_key(&all[winner])),
        },
        Some(winner),
    )
}

/// Selects among candidates and says which one won.
pub fn pick(all: &Vec<Candidate>) -> (r: (SelectionReport, Option<usize>))
    ensures
        r.1 is Some <==> all@.len() > 0,
        r.1 matches Some(i) ==> i < all@.len(),
        chosen(r.0, r.1, all@) == selection(all.deep_view()),
{
    let mut stages: Vec<StageReport> = Vec::new();
    assert(stages.deep_view() =~= Seq::empty());
    if all.len() == 0 {
        return (
            SelectionReport { winner: None, equal_peer: None, stages, tie_key_winner: None },
            None,
        );
    }
    let ghost views = all.deep_view();
    let mut at: Vec<usize> = Vec::new();
    let mut k: usize = 0;
    while k < all.len()
        invariant
            k <= all@.len(),
            at@.len() == k,
            forall|j: int| 0 <= j < k ==> #[trigger] at@[j] == j,
        decreases all.len() - k,
    {
        at.push(k);
        k += 1;
    }
    assert(picked(views, at@) =~= views);
    push_to(
        &mut stages,
        StageReport {
            stage: 0,
            name: "candidates".to_owned(),
            detail: usize_text(at.len()).concat(" eligible route(s) in Adj-RIB-In"),
            retained: retained(all, &at),
        },
    );
    at = reduce(all, &at, Stage::LocalPref);
    push_to(&mut stages, Stage::LocalPref.report(retained(all, &at)));
    assert(stages.deep_view() =~= seq![
        pool_report(views),
        stage_report(Stage::LocalPref, neighbors(kept(views, Stage::LocalPref))),
    ]);
    if at.len() == 1 {
        return finish(all, &at, stages);
    }
    at = reduce(all, &at, Stage::AsPathLength);
    push_to(&mut stages, Stage::AsPathLength.report(retained(all, &at)));
    if at.len() == 1 {
        return finish(all, &at, stages);
    }
    at = reduce(all, &at, Stage::OriginType);
    push_to(&mut stages, Stage::OriginType.report(retained(all, &at)));
    if at.len() == 1 {
        return finish(all, &at, stages);
    }
    if med_comparable(all, &at) {
        at = reduce(all, &at, Stage::Med);
        push_to(&mut stages, Stage::Med.report(retained(all, &at)));
        if at.len() == 1 {
            return finish(all, &at, stages);
        }
    } else {
        push_to(
            &mut stages,
            StageReport {
                stage: 4,
                name: "med".to_owned(),
                detail: "skipped: routes come from different neighboring ASes".to_owned(),
                retained: retained(all, &at),
            },
        );
    }
    at = reduce(all, &at, Stage::EbgpOverIbgp);
    push_to(&mut stages, Stage::EbgpOverIbgp.report(retained(all, &at)));
    if at.len() == 1 {
        return finish(all, &at, stages);
    }
    finish_by_identity(all, &at, stages)
}

/// Selects the best path among candidates, with the evidence of every stage.
pub fn select(candidates: &Vec<Candidate>) -> (r: SelectionReport)
    ensures
        r@ == selection(candidates.deep_view()).0,
{
    pick(candidates).0
}

// ---------- laws ----------

proof fn lemma_filter_members<A>(s: Seq<A>, p: spec_fn(A) -> bool, c: A)
    ensures
        s.filter(p).contains(c) == (s.contains(c) && p(c)),
{
    if s.contains(c) && p(c) {
        let i = choose|i: int| 0 <= i < s.len() && s[i] == c;
        s.lemma_filter_contains(p, i);
    }
    if s.filter(p).contains(c) {
        let i = choose|i: int| 0 <= i < s.filter(p).len() && s.filter(p)[i] == c;
        s.lemma_filter_pred(p, i);
        s.lemma_filter_contains_rev(p, c);
    }
}

proof fn lemma_filter_count<A>(s: Seq<A>, p: spec_fn(A) -> bool, c: A)
    ensures
        s.filter(p).to_multiset().count(c) == (if p(c) {
            s.to_multiset().count(c)
        } else {
            0
        }),
    decreases s.len(),
{
    broadcast use vstd::seq_lib::group_to_multiset_ensures;

    if s.len() == 0 {
        assert(s.filter(p) =~= s) by {
            reveal(Seq::filter);
        }
    } else {
        let init = s.drop_last();
        lemma_filter_count(init, p, c);
        assert(s =~= init.push(s.last()));
        init.lemma_filter_push(s.last(), p);
        vstd::seq_lib::to_multiset_build(init, s.last());
        vstd::seq_lib::to_multiset_build(init.filter(p), s.last());
    }
}

/// Whether two pools hold the same candidates in some order.
pub open spec fn reordered(a: Seq<CandidateView>, b: Seq<CandidateView>) -> bool {
    a.to_multiset() == b.to_multiset()
}

proof fn lemma_reordered(a: Seq<CandidateView>, b: Seq<CandidateView>)
    requires
        reordered(a, b),
    ensures
        a.len() == b.len(),
        forall|c: CandidateView| #[trigger] a.contains(c) == b.contains(c),
{
    broadcast use vstd::seq_lib::group_to_multiset_ensures;

    assert(a.len() == a.to_multiset().len());
    assert(b.len() == b.to_multiset().len());
    assert forall|c: CandidateView| #[trigger] a.contains(c) == b.contains(c) by {
        assert(a.contains(c) <==> a.to_multiset().count(c) > 0);
        assert(b.contains(c) <==> b.to_multiset().count(c) > 0);
    }
}

proof fn lemma_filter_reordered(
    a: Seq<CandidateView>,
    b: Seq<CandidateView>,
    p: spec_fn(CandidateView) -> bool,
    q: spec_fn(CandidateView) -> bool,
)
    requires
        reordered(a, b),
        forall|c: CandidateView| #[trigger] p(c) == q(c),
    ensures
        reordered(a.filter(p), b.filter(q)),
{
    assert forall|c: CandidateView|
        a.filter(p).to_multiset().count(c) == b.filter(q).to_multiset().count(c) by {
        lemma_filter_count(a, p, c);
        lemma_filter_count(b, q, c);
        assert(p(c) == q(c));
    }
    assert(a.filter(p).to_multiset() =~= b.filter(q).to_multiset());
}

proof fn lemma_lowest_rank(pool: Seq<CandidateView>, stage: Stage) -> (i: int)
    requires
        pool.len() > 0,
    ensures
        0 <= i < pool.len(),
        ranks_lowest(pool, stage, pool[i]),
    decreases pool.len(),
{
    if pool.len() == 1 {
        0
    } else {
        let init = pool.drop_last();
        let j = lemma_lowest_rank(init, stage);
        let i = if stage.rank_of(pool.last()) < stage.rank_of(pool[j]) {
            pool.len() - 1
        } else {
            j
        };
        assert forall|k: int| 0 <= k < pool.len() implies stage.rank_of(pool[i])
            <= stage.rank_of(#[trigger] pool[k]) by {
            if k < init.len() {
                assert(stage.rank_of(init[j]) <= stage.rank_of(init[k]));
            }
        }
        i
    }
}

/// What a stage keeps of a pool: those of its members that rank lowest, at least one.
proof fn lemma_kept(pool: Seq<CandidateView>, stage: Stage)
    ensures
        forall|c: CandidateView| #[trigger]
            kept(pool, stage).contains(c) == (pool.contains(c) && ranks_lowest(pool, stage, c)),
        pool.len() > 0 ==> kept(pool, stage).len() > 0,
{
    let p = |c: CandidateView| ranks_lowest(pool, stage, c);
    assert forall|c: CandidateView| #[trigger] kept(pool, stage).contains(c) == (pool.contains(c)
        && ranks_lowest(pool, stage, c)) by {
        lemma_filter_members(pool, p, c);
    }
    if pool.len() > 0 {
        let i = lemma_lowest_rank(pool, stage);
        pool.lemma_filter_contains(p, i);
    }
}

proof fn lemma_kept_reordered(a: Seq<CandidateView>, b: Seq<CandidateView>, stage: Stage)
    requires
        reordered(a, b),
    ensures
        reordered(kept(a, stage), kept(b, stage)),
{
    lemma_reordered(a, b);
    let p = |c: CandidateView| ranks_lowest(a, stage, c);
    let q = |c: CandidateView| ranks_lowest(b, stage, c);
    assert forall|c: CandidateView| #[trigger] p(c) == q(c) by {
        if p(c) {
            assert forall|k: int| 0 <= k < b.len() implies stage.rank_of(c) <= stage.rank_of(
                #[trigger] b[k],
            ) by {
                assert(b.contains(b[k]));
                assert(a.contains(b[k]));
                let j = choose|j: int| 0 <= j < a.len() && a[j] == b[k];
                assert(stage.rank_of(c) <= stage.rank_of(a[j]));
            }
        }
        if q(c) {
            assert forall|k: int| 0 <= k < a.len() implies stage.rank_of(c) <= stage.rank_of(
                #[trigger] a[k],
            ) by {
                assert(a.contains(a[k]));
                assert(b.contains(a[k]));
                let j = choose|j: int| 0 <= j < b.len() && b[j] == a[k];
                assert(stage.rank_of(c) <= stage.rank_of(b[j]));
            }
        }
    }
    lemma_filter_reordered(a, b, p, q);
}

proof fn lemma_one_neighbor_as(a: Seq<CandidateView>, b: Seq<CandidateView>)
    requires
        reordered(a, b),
        one_neighbor_as(a),
    ensures
        one_neighbor_as(b),
{
    lemma_reordered(a, b);
    assert forall|i: int| 0 <= i < b.len() implies (#[trigger] b[i]).route.neighbor_as()
        == b[0].route.neighbor_as() by {
        assert(b.contains(b[i]) && b.contains(b[0]));
        assert(a.contains(b[i]) && a.contains(b[0]));
        let j = choose|j: int| 0 <= j < a.len() && a[j] == b[i];
        let k = choose|k: int| 0 <= k < a.len() && a[k] == b[0];
        assert(a[j].route.neighbor_as() == a[0].route.neighbor_as());
        assert(a[k].route.neighbor_as() == a[0].route.neighbor_as());
    }
}

/// The candidates that enter the comparison of ingress identity, or the one that was
/// singled out before it.
pub open spec fn finalists(pool: Seq<CandidateView>) -> Seq<CandidateView> {
    let a = kept(pool, Stage::LocalPref);
    let b = kept(a, Stage::AsPathLength);
    let c = kept(b, Stage::OriginType);
    let d = after_med(c);
    let e = kept(d, Stage::EbgpOverIbgp);
    if a.len() == 1 {
        a
    } else if b.len() == 1 {
        b
    } else if c.len() == 1 {
        c
    } else if d.len() == 1 {
        d
    } else {
        e
    }
}

proof fn lemma_finalists(pool: Seq<CandidateView>)
    requires
        pool.len() > 0,
    ensures
        ({
            let f = finalists(pool);
            let s = selection(pool);
            &&& f.len() > 0
            &&& forall|c: CandidateView| #[trigger] f.contains(c) ==> pool.contains(c)
            &&& f.len() == 1 ==> {
                &&& s.1 == Some(f[0])
                &&& s.0.winner == Some(f[0].node)
                &&& s.0.equal_peer is None
                &&& s.0.tie_key_winner == Some(tie_text(f[0]))
            }
            &&& f.len() > 1 ==> {
                let w = lowest_key(lowest_neighbor(f));
                &&& s.1 == Some(w)
                &&& s.0.winner == Some(w.node)
                &&& s.0.equal_peer == lowest_text(equal_neighbors(f, w))
                &&& s.0.tie_key_winner == Some(tie_text(w))
            }
        }),
{
    let a = kept(pool, Stage::LocalPref);
    let b = kept(a, Stage::AsPathLength);
    let c = kept(b, Stage::OriginType);
    let d = after_med(c);
    lemma_kept(pool, Stage::LocalPref);
    lemma_kept(a, Stage::AsPathLength);
    lemma_kept(b, Stage::OriginType);
    lemma_kept(c, Stage::Med);
    lemma_kept(d, Stage::EbgpOverIbgp);
}

proof fn lemma_finalists_reordered(a: Seq<CandidateView>, b: Seq<CandidateView>)
    requires
        reordered(a, b),
    ensures
        reordered(finalists(a), finalists(b)),
{
    let a1 = kept(a, Stage::LocalPref);
    let b1 = kept(b, Stage::LocalPref);
    lemma_kept_reordered(a, b, Stage::LocalPref);
    lemma_reordered(a1, b1);
    let a2 = kept(a1, Stage::AsPathLength);
    let b2 = kept(b1, Stage::AsPathLength);
    lemma_kept_reordered(a1, b1, Stage::AsPathLength);
    lemma_reordered(a2, b2);
    let a3 = kept(a2, Stage::OriginType);
    let b3 = kept(b2, Stage::OriginType);
    lemma_kept_reordered(a2, b2, Stage::OriginType);
    lemma_reordered(a3, b3);
    if one_neighbor_as(a3) {
        lemma_one_neighbor_as(a3, b3);
        lemma_kept_reordered(a3, b3, Stage::Med);
    }
    if one_neighbor_as(b3) {
        lemma_one_neighbor_as(b3, a3);
    }
    let a4 = after_med(a3);
    let b4 = after_med(b3);
    lemma_reordered(a4, b4);
    lemma_kept_reordered(a4, b4, Stage::EbgpOverIbgp);
}

proof fn lemma_lowest_key(pool: Seq<CandidateView>)
    requires
        pool.len() > 0,
    ensures
        pool.contains(lowest_key(pool)),
        forall|c: CandidateView| #[trigger]
            pool.contains(c) ==> !str_lt(tie_text(c), tie_text(lowest_key(pool))),
    decreases pool.len(),
{
    let w = lowest_key(pool);
    if pool.len() == 1 {
        assert(pool[0] == w);
        crate::text::lemma_str_lt_irreflexive(tie_text(w));
    } else {
        let init = pool.drop_last();
        let best = lowest_key(init);
        lemma_lowest_key(init);
        crate::text::lemma_str_lt_irreflexive(tie_text(pool.last()));
        assert(pool.contains(w)) by {
            if w != pool.last() {
                let i = choose|i: int| 0 <= i < init.len() && init[i] == best;
                assert(pool[i] == best);
            } else {
                assert(pool[pool.len() - 1] == w);
            }
        }
        assert forall|c: CandidateView| #[trigger] pool.contains(c) implies !str_lt(
            tie_text(c),
            tie_text(w),
        ) by {
            let i = choose|i: int| 0 <= i < pool.len() && pool[i] == c;
            if i < init.len() {
                assert(init[i] == c);
                assert(init.contains(c));
                if str_lt(tie_text(c), tie_text(w)) && w == pool.last() && w != best {
                    if str_lt(tie_text(pool.last()), tie_text(best)) {
                        crate::text::lemma_str_lt_transitive(
                            tie_text(c),
                            tie_text(w),
                            tie_text(best),
                        );
                    }
                }
            }
        }
    }
}

proof fn lemma_lowest_neighbor(pool: Seq<CandidateView>)
    requires
        pool.len() > 0,
    ensures
        lowest_neighbor(pool).len() > 0,
        forall|c: CandidateView| #[trigger]
            lowest_neighbor(pool).contains(c) == (pool.contains(c) && (forall|k: int|
                0 <= k < pool.len() ==> !str_lt((#[trigger] pool[k]).node, c.node))),
    decreases pool.len(),
{
    let p = |c: CandidateView|
        forall|k: int| 0 <= k < pool.len() ==> !str_lt((#[trigger] pool[k]).node, c.node);
    assert forall|c: CandidateView| #[trigger] lowest_neighbor(pool).contains(c) == (pool.contains(
        c,
    ) && (forall|k: int| 0 <= k < pool.len() ==> !str_lt((#[trigger] pool[k]).node, c.node))) by {
        lemma_filter_members(pool, p, c);
    }
    let i = lemma_some_lowest_neighbor(pool);
    pool.lemma_filter_contains(p, i);
}

proof fn lemma_some_lowest_neighbor(pool: Seq<CandidateView>) -> (i: int)
    requires
        pool.len() > 0,
    ensures
        0 <= i < pool.len(),
        forall|k: int| 0 <= k < pool.len() ==> !str_lt((#[trigger] pool[k]).node, pool[i].node),
    decreases pool.len(),
{
    let last = pool.last().node;
    crate::text::lemma_str_lt_irreflexive(last);
    if pool.len() == 1 {
        0
    } else {
        let init = pool.drop_last();
        let j = lemma_some_lowest_neighbor(init);
        if str_lt(last, pool[j].node) {
            assert forall|k: int| 0 <= k < pool.len() implies !str_lt(
                (#[trigger] pool[k]).node,
                last,
            ) by {
                if k < init.len() && str_lt(pool[k].node, last) {
                    crate::text::lemma_str_lt_transitive(pool[k].node, last, pool[j].node);
                    assert(!str_lt(init[k].node, init[j].node));
                }
            }
            pool.len() - 1
        } else {
            assert forall|k: int| 0 <= k < pool.len() implies !str_lt(
                (#[trigger] pool[k]).node,
                pool[j].node,
            ) by {
                if k < init.len() {
                    assert(!str_lt(init[k].node, init[j].node));
                }
            }
            j
        }
    }
}

proof fn lemma_lowest_text(list: Seq<Chars>)
    ensures
        lowest_text(list) is None <==> list.len() == 0,
        lowest_text(list) matches Some(t) ==> list.contains(t) && (forall|x: Chars| #[trigger]
            list.contains(x) ==> !str_lt(x, t)),
    decreases list.len(),
{
    if list.len() > 0 {
        let init = list.drop_last();
        lemma_lowest_text(init);
        crate::text::lemma_str_lt_irreflexive(list.last());
        let t = lowest_text(list).unwrap();
        assert(list.contains(t)) by {
            if t == list.last() {
                assert(list[list.len() - 1] == t);
            } else {
                let i = choose|i: int| 0 <= i < init.len() && init[i] == t;
                assert(list[i] == t);
            }
        }
        assert forall|x: Chars| #[trigger] list.contains(x) implies !str_lt(x, t) by {
            let i = choose|i: int| 0 <= i < list.len() && list[i] == x;
            if i < init.len() {
                assert(init[i] == x);
                assert(init.contains(x));
                let best = lowest_text(init).unwrap();
                if str_lt(list.last(), best) && str_lt(x, t) {
                    crate::text::lemma_str_lt_transitive(x, t, best);
                }
            }
        }
    }
}

/// The winner is one of the candidates, and there is a winner whenever there is a
/// candidate.
pub proof fn law_winner_is_a_candidate(pool: Seq<CandidateView>)
    ensures
        selection(pool).1 is None <==> pool.len() == 0,
        selection(pool).1 matches Some(w) ==> {
            &&& pool.contains(w)
            &&& selection(pool).0.winner == Some(w.node)
            &&& selection(pool).0.tie_key_winner == Some(tie_text(w))
        },
{
    if pool.len() > 0 {
        lemma_finalists(pool);
        let f = finalists(pool);
        if f.len() > 1 {
            lemma_lowest_neighbor(f);
            lemma_lowest_key(lowest_neighbor(f));
        } else {
            assert(f.contains(f[0]));
        }
    }
}

proof fn lemma_winner_is_finalist(pool: Seq<CandidateView>)
    requires
        pool.len() > 0,
    ensures
        selection(pool).1 matches Some(w) && finalists(pool).contains(w),
{
    lemma_finalists(pool);
    let f = finalists(pool);
    if f.len() > 1 {
        lemma_lowest_neighbor(f);
        lemma_lowest_key(lowest_neighbor(f));
    } else {
        assert(f.contains(f[0]));
    }
}

/// Whether two routes tie in what the first three stages compare.
pub open spec fn ties(a: RouteView, b: RouteView) -> bool {
    &&& a.local_pref == b.local_pref
    &&& a.as_path.len() == b.as_path.len()
    &&& a.provenance.rank_of() == b.provenance.rank_of()
}

/// Whether a candidate is at least as good as another in what the first three stages
/// compare, one after the other.
pub open spec fn at_least_as_good(w: RouteView, c: RouteView) -> bool {
    ||| w.local_pref > c.local_pref
    ||| w.local_pref == c.local_pref && w.as_path.len() < c.as_path.len()
    ||| w.local_pref == c.local_pref && w.as_path.len() == c.as_path.len()
        && w.provenance.rank_of() <= c.provenance.rank_of()
}

/// No candidate beats the winner by local preference, then by AS_PATH length, then by
/// origin type.
pub proof fn law_winner_is_best(pool: Seq<CandidateView>, c: CandidateView)
    requires
        pool.contains(c),
    ensures
        selection(pool).1 matches Some(w) && at_least_as_good(w.route, c.route),
{
    lemma_finalists(pool);
    law_winner_is_a_candidate(pool);
    let p1 = kept(pool, Stage::LocalPref);
    let p2 = kept(p1, Stage::AsPathLength);
    let p3 = kept(p2, Stage::OriginType);
    let p4 = after_med(p3);
    let p5 = kept(p4, Stage::EbgpOverIbgp);
    lemma_kept(pool, Stage::LocalPref);
    lemma_kept(p1, Stage::AsPathLength);
    lemma_kept(p2, Stage::OriginType);
    lemma_kept(p3, Stage::Med);
    lemma_kept(p4, Stage::EbgpOverIbgp);
    let w = selection(pool).1.unwrap();
    lemma_winner_is_finalist(pool);
    let i = choose|i: int| 0 <= i < pool.len() && pool[i] == c;
    assert(p1.contains(w));
    assert(Stage::LocalPref.rank_of(w) <= Stage::LocalPref.rank_of(pool[i]));
    if w.route.local_pref == c.route.local_pref {
        assert(ranks_lowest(pool, Stage::LocalPref, c));
        assert(p1.contains(c));
        if p1.len() == 1 {
            assert(p1[0] == c && p1[0] == w);
        } else {
            assert(p2.contains(w));
            let j = choose|j: int| 0 <= j < p1.len() && p1[j] == c;
            assert(Stage::AsPathLength.rank_of(w) <= Stage::AsPathLength.rank_of(p1[j]));
            if w.route.as_path.len() == c.route.as_path.len() {
                assert(ranks_lowest(p1, Stage::AsPathLength, c));
                assert(p2.contains(c));
                if p2.len() == 1 {
                    assert(p2[0] == c && p2[0] == w);
                } else {
                    assert(p3.contains(w));
                    let k = choose|k: int| 0 <= k < p2.len() && p2[k] == c;
                    assert(Stage::OriginType.rank_of(w) <= Stage::OriginType.rank_of(p2[k]));
                }
            }
        }
    }
}

/// Where all candidates that tie with the winner in the first three stages come from one
/// neighboring AS, none of them has a lower MED than the winner.
pub proof fn law_lowest_med_wins(pool: Seq<CandidateView>, c: CandidateView)
    requires
        pool.contains(c),
        selection(pool).1 matches Some(w) && ties(c.route, w.route) && (
        forall|d: CandidateView| #[trigger]
            pool.contains(d) && ties(d.route, w.route) ==> d.route.neighbor_as()
                == w.route.neighbor_as()),
    ensures
        selection(pool).1 matches Some(w) && w.route.med_or_zero() <= c.route.med_or_zero(),
{
    lemma_finalists(pool);
    law_winner_is_a_candidate(pool);
    let w = selection(pool).1.unwrap();
    let p1 = kept(pool, Stage::LocalPref);
    let p2 = kept(p1, Stage::AsPathLength);
    let p3 = kept(p2, Stage::OriginType);
    let p4 = after_med(p3);
    let p5 = kept(p4, Stage::EbgpOverIbgp);
    lemma_kept(pool, Stage::LocalPref);
    lemma_kept(p1, Stage::AsPathLength);
    lemma_kept(p2, Stage::OriginType);
    lemma_kept(p3, Stage::Med);
    lemma_kept(p4, Stage::EbgpOverIbgp);
    lemma_winner_is_finalist(pool);
    if c != w {
        assert(p1.contains(w) && p1.contains(c));
        lemma_two_members(p1, w, c);
        assert(p2.contains(w) && p2.contains(c));
        lemma_two_members(p2, w, c);
        assert(p3.contains(w) && p3.contains(c));
        lemma_two_members(p3, w, c);
        assert forall|i: int| 0 <= i < p3.len() implies (#[trigger] p3[i]).route.neighbor_as()
            == w.route.neighbor_as() by {
            let d = p3[i];
            assert(p3.contains(d));
            assert(p2.contains(d) && p1.contains(d) && pool.contains(d));
            let x = choose|x: int| 0 <= x < pool.len() && pool[x] == w;
            let y = choose|y: int| 0 <= y < pool.len() && pool[y] == d;
            assert(Stage::LocalPref.rank_of(d) <= Stage::LocalPref.rank_of(pool[x]));
            assert(Stage::LocalPref.rank_of(w) <= Stage::LocalPref.rank_of(pool[y]));
            let x = choose|x: int| 0 <= x < p1.len() && p1[x] == w;
            let y = choose|y: int| 0 <= y < p1.len() && p1[y] == d;
            assert(Stage::AsPathLength.rank_of(d) <= Stage::AsPathLength.rank_of(p1[x]));
            assert(Stage::AsPathLength.rank_of(w) <= Stage::AsPathLength.rank_of(p1[y]));
            let x = choose|x: int| 0 <= x < p2.len() && p2[x] == w;
            let y = choose|y: int| 0 <= y < p2.len() && p2[y] == d;
            assert(Stage::OriginType.rank_of(d) <= Stage::OriginType.rank_of(p2[x]));
            assert(Stage::OriginType.rank_of(w) <= Stage::OriginType.rank_of(p2[y]));
            assert(ties(d.route, w.route));
        }
        assert(one_neighbor_as(p3));
        assert(p4.contains(w));
        let k = choose|k: int| 0 <= k < p3.len() && p3[k] == c;
        assert(Stage::Med.rank_of(w) <= Stage::Med.rank_of(p3[k]));
    }
}

proof fn lemma_no_finalists(pool: Seq<CandidateView>)
    requires
        pool.len() == 0,
    ensures
        finalists(pool).len() == 0,
{
    reveal(Seq::filter);
}

/// Of the candidates that the attributes do not separate, none has a lower neighbor id
/// than the winner.
pub proof fn law_lowest_neighbor_wins(pool: Seq<CandidateView>, c: CandidateView)
    requires
        finalists(pool).contains(c),
    ensures
        selection(pool).1 matches Some(w) && !str_lt(c.node, w.node),
{
    if pool.len() == 0 {
        lemma_no_finalists(pool);
    }
    lemma_finalists(pool);
    let f = finalists(pool);
    let i = choose|i: int| 0 <= i < f.len() && f[i] == c;
    if f.len() > 1 {
        lemma_lowest_neighbor(f);
        lemma_lowest_key(lowest_neighbor(f));
        assert(!str_lt(f[i].node, lowest_key(lowest_neighbor(f)).node));
    } else {
        crate::text::lemma_str_lt_irreflexive(c.node);
    }
}

/// Whether the winner shares its tie-break key with no other candidate.
pub open spec fn key_decides(pool: Seq<CandidateView>) -> bool {
    selection(pool).1 matches Some(w) ==> forall|c: CandidateView| #[trigger]
        pool.contains(c) && tie_text(c) == tie_text(w) ==> c == w
}

/// The winners of two orders of a pool share the win.
proof fn lemma_win_reordered(a: Seq<CandidateView>, b: Seq<CandidateView>)
    requires
        reordered(a, b),
        a.len() > 0,
    ensures
        a.contains(lowest_key(lowest_neighbor(b))),
        shares_win(lowest_key(lowest_neighbor(b)), lowest_key(lowest_neighbor(a))),
{
    lemma_reordered(a, b);
    lemma_lowest_neighbor(a);
    lemma_lowest_neighbor(b);
    let na = lowest_neighbor(a);
    let nb = lowest_neighbor(b);
    let wa = lowest_key(na);
    let wb = lowest_key(nb);
    lemma_lowest_key(na);
    lemma_lowest_key(nb);
    lemma_lowest_neighbor_reordered(a, b);
    assert(nb.contains(wa));
    assert(na.contains(wb));
    if tie_text(wa) != tie_text(wb) {
        crate::text::lemma_str_lt_connected(tie_text(wa), tie_text(wb));
    }
    let i = choose|i: int| 0 <= i < a.len() && a[i] == wa;
    let j = choose|j: int| 0 <= j < a.len() && a[j] == wb;
    assert(!str_lt(a[j].node, wa.node) && !str_lt(a[i].node, wb.node));
    if wa.node != wb.node {
        crate::text::lemma_str_lt_connected(wa.node, wb.node);
    }
}

/// The selection does not depend on the order in which the candidates come: the winning
/// neighbor, the winning key and the equal peer are the same. Where no other candidate
/// shares that key, the winning candidate is the same as well.
pub proof fn law_selection_ignores_order(a: Seq<CandidateView>, b: Seq<CandidateView>)
    requires
        reordered(a, b),
    ensures
        selection(a).0.winner == selection(b).0.winner,
        selection(a).0.tie_key_winner == selection(b).0.tie_key_winner,
        selection(a).0.equal_peer == selection(b).0.equal_peer,
        key_decides(a) ==> selection(a).1 == selection(b).1,
{
    lemma_reordered(a, b);
    if a.len() > 0 {
        lemma_finalists(a);
        lemma_finalists(b);
        lemma_finalists_reordered(a, b);
        let fa = finalists(a);
        let fb = finalists(b);
        lemma_reordered(fa, fb);
        if fa.len() == 1 {
            assert(fa.contains(fa[0]));
            assert(fb[0] == fa[0]);
        } else {
            let wa = lowest_key(lowest_neighbor(fa));
            let wb = lowest_key(lowest_neighbor(fb));
            lemma_win_reordered(fa, fb);
            lemma_equal_neighbors_reordered(fa, fb, wa, wb);
            assert(a.contains(wb));
        }
    }
}

proof fn lemma_lowest_neighbor_reordered(a: Seq<CandidateView>, b: Seq<CandidateView>)
    requires
        reordered(a, b),
        a.len() > 0,
    ensures
        forall|c: CandidateView| #[trigger]
            lowest_neighbor(a).contains(c) == lowest_neighbor(b).contains(c),
{
    lemma_reordered(a, b);
    lemma_lowest_neighbor(a);
    lemma_lowest_neighbor(b);
    assert forall|c: CandidateView| #[trigger] lowest_neighbor(a).contains(c)
        == lowest_neighbor(b).contains(c) by {
        if lowest_neighbor(a).contains(c) {
            assert forall|k: int| 0 <= k < b.len() implies !str_lt(
                (#[trigger] b[k]).node,
                c.node,
            ) by {
                assert(b.contains(b[k]));
                assert(a.contains(b[k]));
                let j = choose|j: int| 0 <= j < a.len() && a[j] == b[k];
                assert(!str_lt(a[j].node, c.node));
            }
            assert(b.contains(c));
        }
        if lowest_neighbor(b).contains(c) {
            assert forall|k: int| 0 <= k < a.len() implies !str_lt(
                (#[trigger] a[k]).node,
                c.node,
            ) by {
                assert(a.contains(a[k]));
                assert(b.contains(a[k]));
                let j = choose|j: int| 0 <= j < b.len() && b[j] == a[k];
                assert(!str_lt(b[j].node, c.node));
            }
            assert(a.contains(c));
        }
    }
}

/// A neighbor is among the equal ones if and only if one of its candidates equals the
/// winner.
proof fn lemma_equal_neighbors(pool: Seq<CandidateView>, w: CandidateView, n: Chars)
    ensures
        equal_neighbors(pool, w).contains(n) <==> exists|c: CandidateView|
            #![trigger pool.contains(c)]
            pool.contains(c) && c.node == n && equals_winner(pool, w, c),
{
    let p = |c: CandidateView| equals_winner(pool, w, c);
    let f = pool.filter(p);
    if equal_neighbors(pool, w).contains(n) {
        let i = choose|i: int|
            0 <= i < equal_neighbors(pool, w).len() && equal_neighbors(pool, w)[i] == n;
        assert(f.contains(f[i]));
        lemma_filter_members(pool, p, f[i]);
        assert(pool.contains(f[i]));
    }
    if exists|c: CandidateView|
        #![trigger pool.contains(c)]
        pool.contains(c) && c.node == n && equals_winner(pool, w, c) {
        let c = choose|c: CandidateView|
            #![trigger pool.contains(c)]
            pool.contains(c) && c.node == n && equals_winner(pool, w, c);
        lemma_filter_members(pool, p, c);
        let i = choose|i: int| 0 <= i < f.len() && f[i] == c;
        assert(equal_neighbors(pool, w)[i] == n);
    }
}

/// What equals the winner in a pool also equals, in another order of it, one that shares the
/// win.
proof fn lemma_equals_winner_reordered(
    a: Seq<CandidateView>,
    b: Seq<CandidateView>,
    w: CandidateView,
    v: CandidateView,
    c: CandidateView,
)
    requires
        reordered(a, b),
        shares_win(v, w),
        equals_winner(a, w, c),
    ensures
        equals_winner(b, v, c),
{
    lemma_reordered(a, b);
    let i = choose|i: int|
        0 <= i < a.len() && shares_win(#[trigger] a[i], w) && same_attributes(
            c.route,
            a[i].route,
        );
    assert(a.contains(a[i]));
    assert(b.contains(a[i]));
    let j = choose|j: int| 0 <= j < b.len() && b[j] == a[i];
    assert(shares_win(b[j], v));
}

proof fn lemma_equal_neighbors_reordered(
    a: Seq<CandidateView>,
    b: Seq<CandidateView>,
    w: CandidateView,
    v: CandidateView,
)
    requires
        reordered(a, b),
        shares_win(v, w),
    ensures
        lowest_text(equal_neighbors(a, w)) == lowest_text(equal_neighbors(b, v)),
{
    lemma_reordered(a, b);
    let ea = equal_neighbors(a, w);
    let eb = equal_neighbors(b, v);
    lemma_lowest_text(ea);
    lemma_lowest_text(eb);
    assert forall|n: Chars| #[trigger] ea.contains(n) == eb.contains(n) by {
        lemma_equal_neighbors(a, w, n);
        lemma_equal_neighbors(b, v, n);
        if ea.contains(n) {
            let c = choose|c: CandidateView|
                #![trigger a.contains(c)]
                a.contains(c) && c.node == n && equals_winner(a, w, c);
            lemma_equals_winner_reordered(a, b, w, v, c);
            assert(b.contains(c));
        }
        if eb.contains(n) {
            let c = choose|c: CandidateView|
                #![trigger b.contains(c)]
                b.contains(c) && c.node == n && equals_winner(b, v, c);
            lemma_equals_winner_reordered(b, a, v, w, c);
            assert(a.contains(c));
        }
    }
    if ea.len() > 0 {
        assert(ea.contains(ea[0]));
        assert(eb.contains(ea[0]));
    }
    if eb.len() > 0 {
        assert(eb.contains(eb[0]));
        assert(ea.contains(eb[0]));
    }
    if ea.len() > 0 && eb.len() > 0 {
        let x = lowest_text(ea).unwrap();
        let y = lowest_text(eb).unwrap();
        assert(eb.contains(x) && ea.contains(y));
        if x != y {
            crate::text::lemma_str_lt_connected(x, y);
        }
    }
}

/// An equal peer is another neighbor than the winner's, and one of its candidates has the
/// attributes of the winner, or of one that shares the win. Where no other candidate shares
/// the key of the winner, it has those of the winner.
pub proof fn law_equal_peer_is_equal(pool: Seq<CandidateView>)
    ensures
        selection(pool).0.equal_peer matches Some(n) ==> {
            &&& selection(pool).1 matches Some(w)
            &&& n != w.node
            &&& exists|c: CandidateView|
                #![trigger pool.contains(c)]
                pool.contains(c) && c.node == n && equals_winner(pool, w, c) && (key_decides(pool)
                    ==> same_attributes(c.route, w.route))
        },
{
    if pool.len() > 0 {
        lemma_finalists(pool);
        let f = finalists(pool);
        if f.len() > 1 && selection(pool).0.equal_peer is Some {
            let w = lowest_key(lowest_neighbor(f));
            let n = selection(pool).0.equal_peer.unwrap();
            lemma_lowest_text(equal_neighbors(f, w));
            lemma_equal_neighbors(f, w, n);
            let c = choose|c: CandidateView|
                #![trigger f.contains(c)]
                f.contains(c) && c.node == n && equals_winner(f, w, c);
            assert(pool.contains(c));
            let i = choose|i: int|
                0 <= i < f.len() && shares_win(#[trigger] f[i], w) && same_attributes(
                    c.route,
                    f[i].route,
                );
            assert(f.contains(f[i]));
            assert(pool.contains(f[i]));
            let j = choose|j: int| 0 <= j < pool.len() && pool[j] == f[i];
            assert(shares_win(pool[j], w));
            assert(equals_winner(pool, w, c));
        }
    }
}

/// A neighbor whose candidate has the attributes of the winner never goes unreported:
/// some equal peer is named.
pub proof fn law_equal_best_is_reported(pool: Seq<CandidateView>, c: CandidateView)
    requires
        pool.contains(c),
        selection(pool).1 matches Some(w) && same_attributes(c.route, w.route) && c.node != w.node,
    ensures
        selection(pool).0.equal_peer is Some,
{
    lemma_finalists(pool);
    law_winner_is_a_candidate(pool);
    let w = selection(pool).1.unwrap();
    let p1 = kept(pool, Stage::LocalPref);
    let p2 = kept(p1, Stage::AsPathLength);
    let p3 = kept(p2, Stage::OriginType);
    let p4 = after_med(p3);
    let p5 = kept(p4, Stage::EbgpOverIbgp);
    lemma_kept(pool, Stage::LocalPref);
    lemma_kept(p1, Stage::AsPathLength);
    lemma_kept(p2, Stage::OriginType);
    lemma_kept(p3, Stage::Med);
    lemma_kept(p4, Stage::EbgpOverIbgp);
    lemma_winner_is_finalist(pool);
    assert(p1.contains(w) && p1.contains(c));
    lemma_two_members(p1, w, c);
    assert(p2.contains(w) && p2.contains(c));
    lemma_two_members(p2, w, c);
    assert(p3.contains(w) && p3.contains(c));
    lemma_two_members(p3, w, c);
    assert(p4.contains(w) && p4.contains(c));
    lemma_two_members(p4, w, c);
    assert(p5.contains(w) && p5.contains(c));
    lemma_two_members(p5, w, c);
    let i = choose|i: int| 0 <= i < p5.len() && p5[i] == w;
    assert(shares_win(p5[i], w));
    assert(equals_winner(p5, w, c));
    lemma_equal_neighbors(p5, w, c.node);
    lemma_lowest_text(equal_neighbors(p5, w));
}

proof fn lemma_two_members(pool: Seq<CandidateView>, a: CandidateView, b: CandidateView)
    requires
        pool.contains(a),
        pool.contains(b),
        a != b,
    ensures
        pool.len() > 1,
{
    let i = choose|i: int| 0 <= i < pool.len() && pool[i] == a;
    let j = choose|j: int| 0 <= j < pool.len() && pool[j] == b;
    assert(i != j);
}

// ---------- what the stages come to ----------

/// Whether two routes have the same local preference, AS_PATH length and provenance.
pub open spec fn level(a: RouteView, b: RouteView) -> bool {
    &&& a.local_pref == b.local_pref
    &&& a.as_path.len() == b.as_path.len()
    &&& a.provenance == b.provenance
}

/// The MED of a route, or zero.
pub open spec fn med_of(r: RouteView) -> i64 {
    match r.med {
        Some(n) => n,
        None => 0,
    }
}

/// The AS that a route comes from: the leftmost of its AS_PATH, or else its first AS.
pub open spec fn advertiser(r: RouteView) -> Option<u32> {
    if r.as_path.len() == 0 {
        r.first_as
    } else {
        Some(r.as_path[0])
    }
}

/// Whether MEDs count for a winner: all candidates that are level with it come from one AS.
pub open spec fn med_counts(pool: Seq<CandidateView>, w: CandidateView) -> bool {
    forall|d: CandidateView| #[trigger]
        pool.contains(d) && level(d.route, w.route) ==> advertiser(d.route) == advertiser(w.route)
}

/// Whether a candidate is as good as the winner in what a stage and those before it compare.
pub open spec fn survives(
    pool: Seq<CandidateView>,
    w: CandidateView,
    stage: int,
    c: CandidateView,
) -> bool {
    &&& stage >= 1 ==> c.route.local_pref == w.route.local_pref
    &&& stage >= 2 ==> c.route.as_path.len() == w.route.as_path.len()
    &&& stage >= 3 ==> c.route.provenance == w.route.provenance
    &&& stage >= 4 && med_counts(pool, w) ==> med_of(c.route) == med_of(w.route)
    &&& stage >= 6 ==> c.node == w.node
}

/// The neighbors of the candidates that are as good as the winner up to a stage, in order.
pub open spec fn survivors(pool: Seq<CandidateView>, w: CandidateView, stage: int) -> Seq<Chars> {
    pool.filter(|c: CandidateView| survives(pool, w, stage, c)).map_values(
        |c: CandidateView| c.node,
    )
}

proof fn lemma_filter_twice(
    s: Seq<CandidateView>,
    p: spec_fn(CandidateView) -> bool,
    q: spec_fn(CandidateView) -> bool,
    r: spec_fn(CandidateView) -> bool,
)
    requires
        forall|c: CandidateView|
            s.contains(c) ==> (#[trigger] r(c)) == (p(c) && (s.filter(p).contains(c) ==> q(c))),
    ensures
        s.filter(p).filter(q) == s.filter(r),
{
    assert forall|c: CandidateView| #[trigger] s.contains(c) implies r(c) == (p(c) && q(c)) by {
        lemma_filter_members(s, p, c);
    }
    lemma_filter_both(s, p, q, r);
}

proof fn lemma_filter_both(
    s: Seq<CandidateView>,
    p: spec_fn(CandidateView) -> bool,
    q: spec_fn(CandidateView) -> bool,
    r: spec_fn(CandidateView) -> bool,
)
    requires
        forall|c: CandidateView| #[trigger] s.contains(c) ==> r(c) == (p(c) && q(c)),
    ensures
        s.filter(p).filter(q) == s.filter(r),
    decreases s.len(),
{
    if s.len() == 0 {
        reveal(Seq::filter);
    } else {
        let init = s.drop_last();
        assert forall|c: CandidateView| #[trigger] init.contains(c) implies r(c) == (p(c) && q(
            c,
        )) by {
            let i = choose|i: int| 0 <= i < init.len() && init[i] == c;
            assert(s[i] == c);
            assert(s.contains(c));
        }
        lemma_filter_both(init, p, q, r);
        assert(s =~= init.push(s.last()));
        assert(s[s.len() - 1] == s.last());
        assert(s.contains(s.last()));
        init.lemma_filter_push(s.last(), p);
        init.lemma_filter_push(s.last(), r);
        init.filter(p).lemma_filter_push(s.last(), q);
    }
}

/// What a stage keeps are those that rank with one that it keeps.
proof fn lemma_kept_with(
    pool: Seq<CandidateView>,
    s: Seq<CandidateView>,
    p: spec_fn(CandidateView) -> bool,
    stage: Stage,
    w: CandidateView,
    r: spec_fn(CandidateView) -> bool,
)
    requires
        s == pool.filter(p),
        kept(s, stage).contains(w),
        forall|c: CandidateView|
            pool.contains(c) ==> (#[trigger] r(c)) == (p(c) && stage.rank_of(c) == stage.rank_of(
                w,
            )),
    ensures
        kept(s, stage) == pool.filter(r),
{
    lemma_kept(s, stage);
    let q = |c: CandidateView| ranks_lowest(s, stage, c);
    let k = choose|k: int| 0 <= k < s.len() && s[k] == w;
    assert forall|c: CandidateView| pool.contains(c) implies (#[trigger] r(c)) == (p(c) && (
    s.contains(c) ==> q(c))) by {
        lemma_filter_members(pool, p, c);
        if s.contains(c) {
            let i = choose|i: int| 0 <= i < s.len() && s[i] == c;
            assert(stage.rank_of(w) <= stage.rank_of(s[i]));
            if q(c) {
                assert(stage.rank_of(c) <= stage.rank_of(s[k]));
            }
        }
    }
    lemma_filter_twice(pool, p, q, r);
}

proof fn lemma_kept_single(pool: Seq<CandidateView>, stage: Stage)
    requires
        pool.len() == 1,
    ensures
        kept(pool, stage) == pool,
{
    let p = |c: CandidateView| ranks_lowest(pool, stage, c);
    assert(p(pool[0]));
    assert(pool =~= Seq::empty().push(pool[0]));
    Seq::<CandidateView>::empty().lemma_filter_push(pool[0], p);
    assert(Seq::<CandidateView>::empty().filter(p) =~= Seq::empty()) by {
        reveal(Seq::filter);
    }
}

proof fn lemma_winner_survives(pool: Seq<CandidateView>)
    requires
        pool.len() > 0,
    ensures
        ({
            let w = selection(pool).1->0;
            let p1 = kept(pool, Stage::LocalPref);
            let p2 = kept(p1, Stage::AsPathLength);
            let p3 = kept(p2, Stage::OriginType);
            let p4 = after_med(p3);
            let p5 = kept(p4, Stage::EbgpOverIbgp);
            &&& selection(pool).1 is Some
            &&& pool.contains(w)
            &&& p1.contains(w)
            &&& p2.contains(w)
            &&& p3.contains(w)
            &&& p4.contains(w)
            &&& p5.contains(w)
        }),
{
    law_winner_is_a_candidate(pool);
    lemma_winner_is_finalist(pool);
    let w = selection(pool).1->0;
    let p1 = kept(pool, Stage::LocalPref);
    let p2 = kept(p1, Stage::AsPathLength);
    let p3 = kept(p2, Stage::OriginType);
    let p4 = after_med(p3);
    let p5 = kept(p4, Stage::EbgpOverIbgp);
    lemma_kept(pool, Stage::LocalPref);
    lemma_kept(p1, Stage::AsPathLength);
    lemma_kept(p2, Stage::OriginType);
    lemma_kept(p3, Stage::Med);
    lemma_kept(p4, Stage::EbgpOverIbgp);
    if p1.len() == 1 {
        lemma_kept_single(p1, Stage::AsPathLength);
    }
    if p2.len() == 1 {
        lemma_kept_single(p2, Stage::OriginType);
    }
    if p3.len() == 1 {
        lemma_kept_single(p3, Stage::Med);
        assert(p4 == p3);
    }
    if p4.len() == 1 {
        lemma_kept_single(p4, Stage::EbgpOverIbgp);
    }
}

/// The pools that the stages leave, as the candidates that are as good as the winner.
proof fn lemma_pools(pool: Seq<CandidateView>)
    requires
        pool.len() > 0,
    ensures
        ({
            let w = selection(pool).1->0;
            let p1 = kept(pool, Stage::LocalPref);
            let p2 = kept(p1, Stage::AsPathLength);
            let p3 = kept(p2, Stage::OriginType);
            let p4 = after_med(p3);
            let p5 = kept(p4, Stage::EbgpOverIbgp);
            &&& p1 == pool.filter(|c: CandidateView| survives(pool, w, 1, c))
            &&& p2 == pool.filter(|c: CandidateView| survives(pool, w, 2, c))
            &&& p3 == pool.filter(|c: CandidateView| survives(pool, w, 3, c))
            &&& one_neighbor_as(p3) <==> med_counts(pool, w)
            &&& p4 == pool.filter(|c: CandidateView| survives(pool, w, 4, c))
            &&& p5 == pool.filter(|c: CandidateView| survives(pool, w, 5, c))
        }),
{
    lemma_winner_survives(pool);
    let w = selection(pool).1->0;
    let p1 = kept(pool, Stage::LocalPref);
    let p2 = kept(p1, Stage::AsPathLength);
    let p3 = kept(p2, Stage::OriginType);
    let p4 = after_med(p3);
    let s0 = |c: CandidateView| true;
    let s1 = |c: CandidateView| survives(pool, w, 1, c);
    let s2 = |c: CandidateView| survives(pool, w, 2, c);
    let s3 = |c: CandidateView| survives(pool, w, 3, c);
    let s4 = |c: CandidateView| survives(pool, w, 4, c);
    let s5 = |c: CandidateView| survives(pool, w, 5, c);
    lemma_filter_all(pool, s0);
    lemma_kept_with(pool, pool, s0, Stage::LocalPref, w, s1);
    lemma_kept_with(pool, p1, s1, Stage::AsPathLength, w, s2);
    lemma_kept_with(pool, p2, s2, Stage::OriginType, w, s3);
    assert(one_neighbor_as(p3) <==> med_counts(pool, w)) by {
        let x = choose|x: int| 0 <= x < p3.len() && p3[x] == w;
        if one_neighbor_as(p3) {
            assert(p3[x].route.neighbor_as() == p3[0].route.neighbor_as());
            assert forall|d: CandidateView| #[trigger] pool.contains(d) && level(
                d.route,
                w.route,
            ) implies advertiser(d.route) == advertiser(w.route) by {
                lemma_filter_members(pool, s3, d);
                let i = choose|i: int| 0 <= i < p3.len() && p3[i] == d;
                assert(p3[i].route.neighbor_as() == p3[0].route.neighbor_as());
            }
        }
        if med_counts(pool, w) {
            assert forall|i: int| 0 <= i < p3.len() implies (#[trigger] p3[i]).route.neighbor_as()
                == p3[0].route.neighbor_as() by {
                assert(p3.contains(p3[i]) && p3.contains(p3[0]));
                lemma_filter_members(pool, s3, p3[i]);
                lemma_filter_members(pool, s3, p3[0]);
                assert(advertiser(p3[i].route) == advertiser(w.route));
                assert(advertiser(p3[0].route) == advertiser(w.route));
            }
        }
    }
    if med_counts(pool, w) {
        lemma_kept_with(pool, p3, s3, Stage::Med, w, s4);
    } else {
        lemma_filter_same(pool, s3, s4);
    }
    lemma_kept_with(pool, p4, s4, Stage::EbgpOverIbgp, w, s5);
}

proof fn lemma_filter_all(s: Seq<CandidateView>, p: spec_fn(CandidateView) -> bool)
    requires
        forall|c: CandidateView| #[trigger] p(c),
    ensures
        s.filter(p) == s,
    decreases s.len(),
{
    if s.len() == 0 {
        reveal(Seq::filter);
        assert(s.filter(p) =~= s);
    } else {
        lemma_filter_all(s.drop_last(), p);
        assert(s =~= s.drop_last().push(s.last()));
        s.drop_last().lemma_filter_push(s.last(), p);
        assert(p(s.last()));
    }
}

proof fn lemma_filter_same(
    s: Seq<CandidateView>,
    p: spec_fn(CandidateView) -> bool,
    q: spec_fn(CandidateView) -> bool,
)
    requires
        forall|c: CandidateView| #[trigger] s.contains(c) ==> p(c) == q(c),
    ensures
        s.filter(p) == s.filter(q),
{
    lemma_filter_both(s, p, |c: CandidateView| true, q);
    lemma_filter_all(s.filter(p), |c: CandidateView| true);
}

/// The winner has the highest local preference; of those that have it, the shortest AS_PATH;
/// and of those the best provenance, where what the node originates comes before what it
/// learned over eBGP, and that before what it learned over iBGP.
pub proof fn law_winner_has_best_attributes(pool: Seq<CandidateView>, c: CandidateView)
    requires
        pool.contains(c),
    ensures
        selection(pool).1 matches Some(w) && {
            &&& w.route.local_pref >= c.route.local_pref
            &&& w.route.local_pref == c.route.local_pref ==> w.route.as_path.len()
                <= c.route.as_path.len()
            &&& w.route.local_pref == c.route.local_pref && w.route.as_path.len()
                == c.route.as_path.len() ==> {
                ||| w.route.provenance == c.route.provenance
                ||| w.route.provenance == Provenance::Origin
                ||| c.route.provenance == Provenance::IBgp
            }
        },
{
    law_winner_is_best(pool, c);
}

/// Of the candidates that are level with the winner, none has a lower MED where MEDs count;
/// and of those that MEDs do not separate either, which is all of them where MEDs do not
/// count, none has a lower neighbor id, and none of the same neighbor a lower key.
pub proof fn law_winner_is_lowest(pool: Seq<CandidateView>, c: CandidateView)
    requires
        pool.contains(c),
        selection(pool).1 matches Some(w) ==> level(c.route, w.route),
    ensures
        selection(pool).1 matches Some(w) && {
            &&& med_counts(pool, w) ==> med_of(w.route) <= med_of(c.route)
            &&& !med_counts(pool, w) || med_of(w.route) == med_of(c.route) ==> {
                &&& !str_lt(c.node, w.node)
                &&& c.node == w.node ==> !str_lt(tie_text(c), tie_text(w))
            }
        },
{
    lemma_winner_survives(pool);
    lemma_pools(pool);
    lemma_finalists(pool);
    let w = selection(pool).1->0;
    let p3 = kept(kept(kept(pool, Stage::LocalPref), Stage::AsPathLength), Stage::OriginType);
    let f = finalists(pool);
    lemma_filter_members(pool, |x: CandidateView| survives(pool, w, 3, x), c);
    lemma_kept(p3, Stage::Med);
    if med_counts(pool, w) {
        let k = choose|k: int| 0 <= k < p3.len() && p3[k] == c;
        assert(Stage::Med.rank_of(w) <= Stage::Med.rank_of(p3[k]));
    }
    if !med_counts(pool, w) || med_of(w.route) == med_of(c.route) {
        lemma_filter_members(pool, |x: CandidateView| survives(pool, w, 1, x), c);
        lemma_filter_members(pool, |x: CandidateView| survives(pool, w, 2, x), c);
        lemma_filter_members(pool, |x: CandidateView| survives(pool, w, 4, x), c);
        lemma_filter_members(pool, |x: CandidateView| survives(pool, w, 5, x), c);
        assert(f.contains(c));
        if f.len() == 1 {
            assert(f[0] == w && f[0] == c);
            crate::text::lemma_str_lt_irreflexive(c.node);
            crate::text::lemma_str_lt_irreflexive(tie_text(c));
        } else {
            law_lowest_neighbor_wins(pool, c);
            lemma_lowest_neighbor(f);
            lemma_lowest_key(lowest_neighbor(f));
            if c.node == w.node {
                assert(lowest_neighbor(f).contains(w));
                assert(lowest_neighbor(f).contains(c));
            }
        }
    }
}

/// Whether two pools differ in nothing but MEDs.
pub open spec fn same_but_meds(a: Seq<CandidateView>, b: Seq<CandidateView>) -> bool {
    &&& a.len() == b.len()
    &&& forall|i: int|
        0 <= i < a.len() ==> (#[trigger] b[i]) == (CandidateView {
            route: RouteView { med: b[i].route.med, ..a[i].route },
            ..a[i]
        })
}

/// MEDs are compared only within one neighboring AS: where the candidates that are level with
/// the winner come from several, the winning neighbor is the same whatever their MEDs are.
pub proof fn law_med_does_not_count_across_ases(a: Seq<CandidateView>, b: Seq<CandidateView>)
    requires
        same_but_meds(a, b),
        selection(a).1 matches Some(w) ==> !med_counts(a, w),
    ensures
        selection(a).0.winner == selection(b).0.winner,
{
    law_winner_is_a_candidate(a);
    law_winner_is_a_candidate(b);
    if a.len() > 0 {
        let w = selection(a).1->0;
        let v = selection(b).1->0;
        let i = choose|i: int| 0 <= i < a.len() && a[i] == w;
        let j = choose|j: int| 0 <= j < b.len() && b[j] == v;
        assert(b[i] == b[i] && a[j] == a[j]);
        assert(b[j] == (CandidateView {
            route: RouteView { med: b[j].route.med, ..a[j].route },
            ..a[j]
        }));
        assert(b[i] == (CandidateView {
            route: RouteView { med: b[i].route.med, ..a[i].route },
            ..a[i]
        }));
        assert(a.contains(a[j]) && b.contains(b[i]));
        law_winner_has_best_attributes(a, a[j]);
        law_winner_has_best_attributes(b, b[i]);
        assert(level(a[j].route, w.route) && level(b[i].route, v.route));
        assert(!med_counts(b, v)) by {
            let d = choose|d: CandidateView| #[trigger]
                a.contains(d) && level(d.route, w.route) && advertiser(d.route) != advertiser(
                    w.route,
                );
            let k = choose|k: int| 0 <= k < a.len() && a[k] == d;
            assert(b[k] == (CandidateView {
                route: RouteView { med: b[k].route.med, ..a[k].route },
                ..a[k]
            }));
            assert(b.contains(b[k]) && b.contains(b[i]));
            assert(level(b[k].route, v.route));
            assert(advertiser(b[k].route) != advertiser(b[i].route));
        }
        law_winner_is_lowest(a, a[j]);
        law_winner_is_lowest(b, b[i]);
        if w.node != v.node {
            crate::text::lemma_str_lt_connected(w.node, v.node);
        }
    }
}

/// The evidence follows the stages. Each report carries its number; it retains, in their
/// order, the neighbors of exactly those candidates that are as good as the winner in
/// everything compared so far, so each retains some of what the one before did, and the
/// winner is always among them. The first one retains all. A report of a single candidate
/// ends the evidence, unless it goes on to ingress identity, which names the winner at last.
/// A MED stage that was skipped says so.
pub proof fn law_evidence_follows_stages(pool: Seq<CandidateView>)
    requires
        pool.len() > 0,
    ensures
        selection(pool).1 matches Some(w) && {
            let s = selection(pool).0.stages;
            &&& 2 <= s.len() <= 8 && s.len() != 7
            &&& forall|k: int| 0 <= k < s.len() ==> (#[trigger] s[k]).stage == k
            &&& s[0].retained == pool.map_values(|c: CandidateView| c.node)
            &&& forall|k: int|
                1 <= k < s.len() && k <= 6 ==> (#[trigger] s[k]).retained == survivors(pool, w, k)
            &&& forall|k: int|
                1 <= k < s.len() - 1 && k <= 5 && s.len() <= 6 ==> (
                #[trigger] s[k]).retained.len() != 1
            &&& s.len() <= 6 ==> s.last().retained == seq![w.node]
            &&& s.len() == 8 ==> s[7].retained == seq![w.node] && s[5].retained.len() > 1
            &&& s.len() > 4 ==> s[4].detail == (if med_counts(pool, w) {
                "same neighboring AS: lowest MED wins (missing MED = 0)"@
            } else {
                "skipped: routes come from different neighboring ASes"@
            })
        },
{
    lemma_winner_survives(pool);
    lemma_pools(pool);
    lemma_finalists(pool);
    let w = selection(pool).1->0;
    let s = selection(pool).0.stages;
    let p1 = kept(pool, Stage::LocalPref);
    let p2 = kept(p1, Stage::AsPathLength);
    let p3 = kept(p2, Stage::OriginType);
    let p4 = after_med(p3);
    let p5 = kept(p4, Stage::EbgpOverIbgp);
    let f = finalists(pool);
    lemma_kept(p4, Stage::EbgpOverIbgp);
    if f.len() == 1 {
        assert(neighbors(f) =~= seq![w.node]);
    }
    if s.len() == 8 {
        let low = |c: CandidateView|
            forall|k: int| 0 <= k < p5.len() ==> !str_lt((#[trigger] p5[k]).node, c.node);
        let s5 = |c: CandidateView| survives(pool, w, 5, c);
        let s6 = |c: CandidateView| survives(pool, w, 6, c);
        lemma_lowest_neighbor(p5);
        lemma_lowest_key(lowest_neighbor(p5));
        assert(lowest_neighbor(p5).contains(w));
        let x = choose|x: int| 0 <= x < p5.len() && p5[x] == w;
        assert forall|c: CandidateView| pool.contains(c) implies (#[trigger] s6(c)) == (s5(c) && (
        p5.contains(c) ==> low(c))) by {
            lemma_filter_members(pool, s5, c);
            if p5.contains(c) {
                let y = choose|y: int| 0 <= y < p5.len() && p5[y] == c;
                if low(c) && c.node != w.node {
                    assert(!str_lt(p5[x].node, c.node));
                    assert(!str_lt(p5[y].node, w.node));
                    crate::text::lemma_str_lt_connected(c.node, w.node);
                }
            }
        }
        lemma_filter_twice(pool, s5, low, s6);
        assert(s[6].retained == survivors(pool, w, 6));
    }
}

/// Whether two routes have the same attributes, communities in any order.
pub open spec fn alike(a: RouteView, b: RouteView) -> bool {
    &&& a.prefix == b.prefix
    &&& level(a, b)
    &&& a.as_path == b.as_path
    &&& med_of(a) == med_of(b)
    &&& a.communities.to_multiset() == b.communities.to_multiset()
}

proof fn lemma_alike(a: RouteView, b: RouteView)
    ensures
        same_attributes(a, b) <==> alike(a, b),
{
    let r = crate::text::str_order();
    crate::text::lemma_str_order_total();
    a.communities.lemma_sort_by_ensures(r);
    b.communities.lemma_sort_by_ensures(r);
    if alike(a, b) {
        vstd::seq_lib::lemma_sorted_unique(sorted(a.communities), sorted(b.communities), r);
    }
}

/// An equal peer is the lowest neighbor, other than the winner's, that has what the winner
/// has: the same prefix, local preference, AS_PATH, MED, provenance and communities. Where one
/// is named, one of its candidates is alike to the winner, or to one from the winner's neighbor
/// with the winner's key; and every other neighbor with a candidate like the winner is not
/// lower than the one that is named.
pub proof fn law_equal_peer_is_the_lowest_alike(pool: Seq<CandidateView>)
    ensures
        selection(pool).0.equal_peer matches Some(n) ==> {
            &&& selection(pool).1 matches Some(w)
            &&& n != w.node
            &&& exists|c: CandidateView, v: CandidateView|
                #![trigger pool.contains(c), pool.contains(v)]
                {
                    &&& pool.contains(c)
                    &&& pool.contains(v)
                    &&& c.node == n
                    &&& v.node == w.node
                    &&& tie_text(v) == tie_text(w)
                    &&& alike(c.route, v.route)
                }
        },
        selection(pool).1 matches Some(w) ==> forall|c: CandidateView| #[trigger]
            pool.contains(c) && c.node != w.node && alike(c.route, w.route) ==> {
                &&& selection(pool).0.equal_peer matches Some(n)
                &&& !str_lt(c.node, n)
            },
{
    law_winner_is_a_candidate(pool);
    if pool.len() > 0 {
        let w = selection(pool).1->0;
        law_equal_peer_is_equal(pool);
        if selection(pool).0.equal_peer is Some {
            let n = selection(pool).0.equal_peer->0;
            let c = choose|c: CandidateView|
                #![trigger pool.contains(c)]
                pool.contains(c) && c.node == n && equals_winner(pool, w, c) && (key_decides(pool)
                    ==> same_attributes(c.route, w.route));
            let i = choose|i: int|
                0 <= i < pool.len() && shares_win(#[trigger] pool[i], w) && same_attributes(
                    c.route,
                    pool[i].route,
                );
            lemma_alike(c.route, pool[i].route);
            assert(pool.contains(pool[i]));
            assert(pool.contains(c));
        }
        assert forall|c: CandidateView| #[trigger]
            pool.contains(c) && c.node != w.node && alike(c.route, w.route) implies {
            &&& selection(pool).0.equal_peer matches Some(n)
            &&& !str_lt(c.node, n)
        } by {
            lemma_alike(c.route, w.route);
            law_equal_best_is_reported(pool, c);
            lemma_finalists(pool);
            lemma_winner_survives(pool);
            lemma_pools(pool);
            let f = finalists(pool);
            lemma_filter_members(pool, |x: CandidateView| survives(pool, w, 1, x), c);
            lemma_filter_members(pool, |x: CandidateView| survives(pool, w, 2, x), c);
            lemma_filter_members(pool, |x: CandidateView| survives(pool, w, 3, x), c);
            lemma_filter_members(pool, |x: CandidateView| survives(pool, w, 4, x), c);
            lemma_filter_members(pool, |x: CandidateView| survives(pool, w, 5, x), c);
            assert(f.contains(c));
            lemma_winner_is_finalist(pool);
            lemma_two_members(f, w, c);
            let i = choose|i: int| 0 <= i < f.len() && f[i] == w;
            assert(shares_win(f[i], w));
            assert(equals_winner(f, w, c));
            lemma_equal_neighbors(f, w, c.node);
            lemma_lowest_text(equal_neighbors(f, w));
        }
    }
}

/// The key of the last tie-break names everything that it is made of: the attributes of the
/// route, with its communities in order, the session that it came in on or else where it
/// originates, and the neighbor.
pub proof fn law_tie_key_names_its_parts(c: CandidateView)
    ensures
        ({
            let r = c.route;
            let key = tie_text(c);
            &&& within(r.prefix, key)
            &&& within(decimal(r.local_pref as int), key)
            &&& within(join(decimals(r.as_path), " "@), key)
            &&& r.med matches Some(n) ==> within(decimal(n as int), key)
            &&& r.med is None ==> within(decimal(0), key)
            &&& within(r.provenance.name(), key)
            &&& within(join(sorted(r.communities), ","@), key)
            &&& c.ingress_session matches Some(s) ==> within(s, key)
            &&& c.ingress_session is None ==> within("origin@"@ + c.node, key)
            &&& within(c.node, key)
        }),
{
    let r = c.route;
    let bar = "|"@;
    let lp = decimal(r.local_pref as int);
    let path = join(decimals(r.as_path), " "@);
    let med = decimal(r.med_or_zero() as int);
    let from = r.provenance.name();
    let comm = join(sorted(r.communities), ","@);
    let k1 = r.prefix + bar + lp;
    let k2 = k1 + bar + path;
    let k3 = k2 + bar + med;
    let k4 = k3 + bar + from;
    let k5 = k4 + bar + comm;
    let k6 = k5 + bar + ingress_text(c);
    let k7 = k6 + bar + c.node;
    assert(tie_text(c) == k7);
    lemma_within_either(r.prefix, bar, lp);
    lemma_kept_within(k1, bar, path);
    lemma_kept_within(k2, bar, med);
    lemma_kept_within(k3, bar, from);
    lemma_kept_within(k4, bar, comm);
    lemma_kept_within(k5, bar, ingress_text(c));
    lemma_kept_within(k6, bar, c.node);
    lemma_within_either(k1, bar, path);
    lemma_within_either(k2, bar, med);
    lemma_within_either(k3, bar, from);
    lemma_within_either(k4, bar, comm);
    lemma_within_either(k5, bar, ingress_text(c));
    lemma_within_either(k6, bar, c.node);
}

proof fn lemma_within_either(a: Chars, bar: Chars, b: Chars)
    ensures
        within(a, a + bar + b),
        within(b, a + bar + b),
{
    lemma_within_self(a);
    lemma_within_self(b);
    lemma_within_ends(a, a, bar);
    lemma_within_ends(a, a + bar, b);
    lemma_within_ends(b, a + bar, b);
}

proof fn lemma_kept_within(a: Chars, bar: Chars, b: Chars)
    ensures
        forall|part: Chars| #[trigger] within(part, a) ==> within(part, a + bar + b),
{
    assert forall|part: Chars| #[trigger] within(part, a) implies within(part, a + bar + b) by {
        lemma_within_ends(part, a, bar);
        lemma_within_ends(part, a + bar, b);
    }
}

} // verus!
