//! Domain model: topology, policies, announcements and runtime routes.

use crate::ordmap::OrdMap;
use crate::text::Chars;
use crate::value::Value;
use vstd::prelude::*;

verus! {

pub type NodeId = String;

pub type Prefix = String;

pub type SessionId = String;

/// Ordered list of AS numbers, nearest AS first (BGP AS_PATH convention).
pub type AsPath = Vec<u32>;

// ---------- sessions ----------

/// Whether the two ends of a session lie in different ASes.
#[derive(Clone, Copy, Debug, PartialEq, Eq, Structural)]
pub enum SessionKind {
    EBgp,
    IBgp,
}

impl DeepView for SessionKind {
    type V = SessionKind;

    open spec fn deep_view(&self) -> SessionKind {
        *self
    }
}

impl Value for SessionKind {
    fn copy(&self) -> (r: Self) {
        *self
    }

    fn same(&self, other: &Self) -> (r: bool) {
        *self == *other
    }
}

impl SessionKind {
    pub open spec fn name(self) -> Chars {
        match self {
            SessionKind::EBgp => "ebgp"@,
            SessionKind::IBgp => "ibgp"@,
        }
    }

    pub fn as_str(&self) -> (r: &'static str)
        ensures
            r@ == self.name(),
    {
        match self {
            SessionKind::EBgp => "ebgp",
            SessionKind::IBgp => "ibgp",
        }
    }
}

/// A directed BGP session between two nodes. Attributes are sent on `local -> remote`.
#[derive(Clone, Debug, PartialEq, Eq)]
pub struct Session {
    pub id: SessionId,
    pub local: NodeId,
    pub remote: NodeId,
    pub kind: SessionKind,
    /// Propagation delay in virtual ticks (deterministic scheduler units).
    pub delay: u64,
}

/// What a [`Session`] holds.
#[verifier::ext_equal]
pub struct SessionView {
    pub id: Chars,
    pub local: Chars,
    pub remote: Chars,
    pub kind: SessionKind,
    pub delay: u64,
}

impl View for Session {
    type V = SessionView;

    open spec fn view(&self) -> SessionView {
        SessionView {
            id: self.id.deep_view(),
            local: self.local.deep_view(),
            remote: self.remote.deep_view(),
            kind: self.kind,
            delay: self.delay,
        }
    }
}

impl DeepView for Session {
    type V = SessionView;

    open spec fn deep_view(&self) -> SessionView {
        self@
    }
}

impl Value for Session {
    fn copy(&self) -> (r: Self) {
        Session {
            id: self.id.copy(),
            local: self.local.copy(),
            remote: self.remote.copy(),
            kind: self.kind,
            delay: self.delay,
        }
    }

    fn same(&self, other: &Self) -> (r: bool) {
        self.id.same(&other.id)
            && self.local.same(&other.local)
            && self.remote.same(&other.remote)
            && self.kind == other.kind
            && self.delay == other.delay
    }
}

/// The delay of a session that names none.
pub fn default_delay() -> (r: u64)
    ensures
        r == 1,
{
    1
}

// ---------- routes ----------

/// Where a route first came from at a node.
#[derive(Clone, Copy, Debug, PartialEq, Eq, Structural)]
pub enum Provenance {
    Origin,
    EBgp,
    IBgp,
}

impl DeepView for Provenance {
    type V = Provenance;

    open spec fn deep_view(&self) -> Provenance {
        *self
    }
}

impl Value for Provenance {
    fn copy(&self) -> (r: Self) {
        *self
    }

    fn same(&self, other: &Self) -> (r: bool) {
        *self == *other
    }
}

impl Provenance {
    /// Locally originated comes before eBGP, eBGP before iBGP.
    pub open spec fn rank_of(self) -> u8 {
        match self {
            Provenance::Origin => 0,
            Provenance::EBgp => 1,
            Provenance::IBgp => 2,
        }
    }

    pub fn rank(&self) -> (r: u8)
        ensures
            r == self.rank_of(),
    {
        match self {
            Provenance::Origin => 0,
            Provenance::EBgp => 1,
            Provenance::IBgp => 2,
        }
    }

    pub open spec fn name(self) -> Chars {
        match self {
            Provenance::Origin => "origin"@,
            Provenance::EBgp => "ebgp"@,
            Provenance::IBgp => "ibgp"@,
        }
    }

    pub fn as_str(&self) -> (r: &'static str)
        ensures
            r@ == self.name(),
    {
        match self {
            Provenance::Origin => "origin",
            Provenance::EBgp => "ebgp",
            Provenance::IBgp => "ibgp",
        }
    }
}

/// A routed prefix candidate with its BGP attributes.
#[derive(Clone, Debug, PartialEq, Eq)]
pub struct Route {
    pub prefix: Prefix,
    pub as_path: AsPath,
    pub local_pref: i64,
    pub med: Option<i64>,
    pub communities: Vec<String>,
    pub provenance: Provenance,
    /// Session this route entered on (stable id; used for split-horizon and tie-break).
    pub ingress_session: Option<SessionId>,
    /// For originated routes: logical "neighbor AS" used for MED grouping. Own AS for
    /// locally originated routes.
    pub first_as: Option<u32>,
}

/// What a [`Route`] holds.
#[verifier::ext_equal]
pub struct RouteView {
    pub prefix: Chars,
    pub as_path: Seq<u32>,
    pub local_pref: i64,
    pub med: Option<i64>,
    pub communities: Seq<Chars>,
    pub provenance: Provenance,
    pub ingress_session: Option<Chars>,
    pub first_as: Option<u32>,
}

impl View for Route {
    type V = RouteView;

    open spec fn view(&self) -> RouteView {
        RouteView {
            prefix: self.prefix.deep_view(),
            as_path: self.as_path.deep_view(),
            local_pref: self.local_pref,
            med: self.med.deep_view(),
            communities: self.communities.deep_view(),
            provenance: self.provenance,
            ingress_session: self.ingress_session.deep_view(),
            first_as: self.first_as.deep_view(),
        }
    }
}

impl DeepView for Route {
    type V = RouteView;

    open spec fn deep_view(&self) -> RouteView {
        self@
    }
}

impl Value for Route {
    fn copy(&self) -> (r: Self) {
        Route {
            prefix: self.prefix.copy(),
            as_path: self.as_path.copy(),
            local_pref: self.local_pref,
            med: self.med.copy(),
            communities: self.communities.copy(),
            provenance: self.provenance,
            ingress_session: self.ingress_session.copy(),
            first_as: self.first_as.copy(),
        }
    }

    fn same(&self, other: &Self) -> (r: bool) {
        self.prefix.same(&other.prefix)
            && self.as_path.same(&other.as_path)
            && self.local_pref == other.local_pref
            && self.med.same(&other.med)
            && self.communities.same(&other.communities)
            && self.provenance == other.provenance
            && self.ingress_session.same(&other.ingress_session)
            && self.first_as.same(&other.first_as)
    }
}

/// The local preference of a route that names none.
pub fn default_local_pref() -> (r: i64)
    ensures
        r == 100,
{
    100
}

impl RouteView {
    /// A route that a node of an AS originates.
    pub open spec fn origin(prefix: Chars, own_as: u32) -> RouteView {
        RouteView {
            prefix,
            as_path: Seq::empty(),
            local_pref: 100,
            med: Some(0),
            communities: Seq::empty(),
            provenance: Provenance::Origin,
            ingress_session: None,
            first_as: Some(own_as),
        }
    }

    /// The AS that advertised the route: the leftmost of its AS_PATH. A path that is
    /// empty falls back to the stored first AS.
    pub open spec fn neighbor_as(self) -> Option<u32> {
        if self.as_path.len() > 0 {
            Some(self.as_path[0])
        } else {
            self.first_as
        }
    }

    /// The MED to compare by; a missing one counts as zero.
    pub open spec fn med_or_zero(self) -> i64 {
        match self.med {
            Some(m) => m,
            None => 0,
        }
    }
}

impl Route {
    /// A route that a node of an AS originates.
    pub fn origin(prefix: Prefix, own_as: u32) -> (r: Route)
        ensures
            r@ == RouteView::origin(prefix@, own_as),
    {
        let r = Route {
            prefix,
            as_path: Vec::new(),
            local_pref: default_local_pref(),
            med: Some(0),
            communities: Vec::new(),
            provenance: Provenance::Origin,
            ingress_session: None,
            first_as: Some(own_as),
        };
        assert(r@ =~= RouteView::origin(prefix@, own_as));
        r
    }

    /// The AS that advertised the route.
    pub fn neighbor_as(&self) -> (r: Option<u32>)
        ensures
            r == self@.neighbor_as(),
    {
        if self.as_path.len() > 0 {
            Some(self.as_path[0])
        } else {
            self.first_as
        }
    }

    /// The MED to compare by.
    pub fn med_or_zero(&self) -> (r: i64)
        ensures
            r == self@.med_or_zero(),
    {
        match self.med {
            Some(m) => m,
            None => 0,
        }
    }
}

// ---------- policies ----------

/// Comparison operator of a match condition.
#[derive(Clone, Copy, Debug, PartialEq, Eq, Structural)]
pub enum Cmp {
    Eq,
    Ne,
    In,
    NotIn,
    Matches,
    Gte,
    Lte,
}

impl DeepView for Cmp {
    type V = Cmp;

    open spec fn deep_view(&self) -> Cmp {
        *self
    }
}

impl Value for Cmp {
    fn copy(&self) -> (r: Self) {
        *self
    }

    fn same(&self, other: &Self) -> (r: bool) {
        *self == *other
    }
}

impl Cmp {
    /// The name of the operator in evidence texts.
    pub open spec fn label(self) -> Chars {
        match self {
            Cmp::Eq => "Eq"@,
            Cmp::Ne => "Ne"@,
            Cmp::In => "In"@,
            Cmp::NotIn => "NotIn"@,
            Cmp::Matches => "Matches"@,
            Cmp::Gte => "Gte"@,
            Cmp::Lte => "Lte"@,
        }
    }

    pub fn label_str(&self) -> (r: &'static str)
        ensures
            r@ == self.label(),
    {
        match self {
            Cmp::Eq => "Eq",
            Cmp::Ne => "Ne",
            Cmp::In => "In",
            Cmp::NotIn => "NotIn",
            Cmp::Matches => "Matches",
            Cmp::Gte => "Gte",
            Cmp::Lte => "Lte",
        }
    }
}

/// The conditions of a rule, all of which must hold.
#[derive(Clone, Debug, PartialEq, Eq)]
pub struct Match {
    pub peer: Option<String>,
    pub prefix: Option<String>,
    pub prefix_cmp: Option<Cmp>,
    pub as_path_len: Option<usize>,
    pub as_path_len_cmp: Option<Cmp>,
    pub as_path_contains: Vec<u32>,
    pub local_pref: Option<i64>,
    pub local_pref_cmp: Option<Cmp>,
    pub med: Option<i64>,
    pub med_cmp: Option<Cmp>,
    /// Community presence: `in` means "any of", `not-in` means "none of".
    pub community_any: Vec<String>,
    pub community_any_cmp: Option<Cmp>,
}

/// What a [`Match`] holds.
#[verifier::ext_equal]
pub struct MatchView {
    pub peer: Option<Chars>,
    pub prefix: Option<Chars>,
    pub prefix_cmp: Option<Cmp>,
    pub as_path_len: Option<usize>,
    pub as_path_len_cmp: Option<Cmp>,
    pub as_path_contains: Seq<u32>,
    pub local_pref: Option<i64>,
    pub local_pref_cmp: Option<Cmp>,
    pub med: Option<i64>,
    pub med_cmp: Option<Cmp>,
    pub community_any: Seq<Chars>,
    pub community_any_cmp: Option<Cmp>,
}

impl View for Match {
    type V = MatchView;

    open spec fn view(&self) -> MatchView {
        MatchView {
            peer: self.peer.deep_view(),
            prefix: self.prefix.deep_view(),
            prefix_cmp: self.prefix_cmp.deep_view(),
            as_path_len: self.as_path_len.deep_view(),
            as_path_len_cmp: self.as_path_len_cmp.deep_view(),
            as_path_contains: self.as_path_contains.deep_view(),
            local_pref: self.local_pref.deep_view(),
            local_pref_cmp: self.local_pref_cmp.deep_view(),
            med: self.med.deep_view(),
            med_cmp: self.med_cmp.deep_view(),
            community_any: self.community_any.deep_view(),
            community_any_cmp: self.community_any_cmp.deep_view(),
        }
    }
}

impl DeepView for Match {
    type V = MatchView;

    open spec fn deep_view(&self) -> MatchView {
        self@
    }
}

impl Value for Match {
    fn copy(&self) -> (r: Self) {
        Match {
            peer: self.peer.copy(),
            prefix: self.prefix.copy(),
            prefix_cmp: self.prefix_cmp.copy(),
            as_path_len: self.as_path_len.copy(),
            as_path_len_cmp: self.as_path_len_cmp.copy(),
            as_path_contains: self.as_path_contains.copy(),
            local_pref: self.local_pref.copy(),
            local_pref_cmp: self.local_pref_cmp.copy(),
            med: self.med.copy(),
            med_cmp: self.med_cmp.copy(),
            community_any: self.community_any.copy(),
            community_any_cmp: self.community_any_cmp.copy(),
        }
    }

    fn same(&self, other: &Self) -> (r: bool) {
        self.peer.same(&other.peer)
            && self.prefix.same(&other.prefix)
            && self.prefix_cmp.same(&other.prefix_cmp)
            && self.as_path_len.same(&other.as_path_len)
            && self.as_path_len_cmp.same(&other.as_path_len_cmp)
            && self.as_path_contains.same(&other.as_path_contains)
            && self.local_pref.same(&other.local_pref)
            && self.local_pref_cmp.same(&other.local_pref_cmp)
            && self.med.same(&other.med)
            && self.med_cmp.same(&other.med_cmp)
            && self.community_any.same(&other.community_any)
            && self.community_any_cmp.same(&other.community_any_cmp)
    }
}

impl MatchView {
    /// No condition: every route matches.
    pub open spec fn empty() -> MatchView {
        MatchView {
            peer: None,
            prefix: None,
            prefix_cmp: None,
            as_path_len: None,
            as_path_len_cmp: None,
            as_path_contains: Seq::empty(),
            local_pref: None,
            local_pref_cmp: None,
            med: None,
            med_cmp: None,
            community_any: Seq::empty(),
            community_any_cmp: None,
        }
    }
}

impl Default for Match {
    fn default() -> (r: Match)
        ensures
            r@ == MatchView::empty(),
    {
        let r = Match {
            peer: None,
            prefix: None,
            prefix_cmp: None,
            as_path_len: None,
            as_path_len_cmp: None,
            as_path_contains: Vec::new(),
            local_pref: None,
            local_pref_cmp: None,
            med: None,
            med_cmp: None,
            community_any: Vec::new(),
            community_any_cmp: None,
        };
        assert(r@ =~= MatchView::empty());
        r
    }
}

/// The decision of a policy whose rules do not terminate.
#[derive(Clone, Copy, Debug, PartialEq, Eq, Structural)]
pub enum Decision {
    Accept,
    Reject,
}

impl DeepView for Decision {
    type V = Decision;

    open spec fn deep_view(&self) -> Decision {
        *self
    }
}

impl Value for Decision {
    fn copy(&self) -> (r: Self) {
        *self
    }

    fn same(&self, other: &Self) -> (r: bool) {
        *self == *other
    }
}

/// What happens after a rule matches.
#[derive(Clone, Copy, Debug, PartialEq, Eq, Structural)]
pub enum OnMatch {
    /// Evaluation continues with the next rule.
    Continue,
    /// Policy evaluation stops with accept.
    Accept,
    /// Policy evaluation stops with reject.
    Reject,
}

impl DeepView for OnMatch {
    type V = OnMatch;

    open spec fn deep_view(&self) -> OnMatch {
        *self
    }
}

impl Value for OnMatch {
    fn copy(&self) -> (r: Self) {
        *self
    }

    fn same(&self, other: &Self) -> (r: bool) {
        *self == *other
    }
}

/// The rewrites of a rule.
#[derive(Clone, Debug, PartialEq, Eq)]
pub struct Action {
    pub set_local_pref: Option<i64>,
    pub set_med: Option<i64>,
    pub add_community: Option<String>,
    pub remove_communities: Vec<String>,
    /// Number of extra local ASes to prepend (export): copies of the advertising node's
    /// own AS beyond the standard eBGP prepend.
    pub as_path_prepend: Option<u32>,
}

/// What a [`Action`] holds.
#[verifier::ext_equal]
pub struct ActionView {
    pub set_local_pref: Option<i64>,
    pub set_med: Option<i64>,
    pub add_community: Option<Chars>,
    pub remove_communities: Seq<Chars>,
    pub as_path_prepend: Option<u32>,
}

impl View for Action {
    type V = ActionView;

    open spec fn view(&self) -> ActionView {
        ActionView {
            set_local_pref: self.set_local_pref.deep_view(),
            set_med: self.set_med.deep_view(),
            add_community: self.add_community.deep_view(),
            remove_communities: self.remove_communities.deep_view(),
            as_path_prepend: self.as_path_prepend.deep_view(),
        }
    }
}

impl DeepView for Action {
    type V = ActionView;

    open spec fn deep_view(&self) -> ActionView {
        self@
    }
}

impl Value for Action {
    fn copy(&self) -> (r: Self) {
        Action {
            set_local_pref: self.set_local_pref.copy(),
            set_med: self.set_med.copy(),
            add_community: self.add_community.copy(),
            remove_communities: self.remove_communities.copy(),
            as_path_prepend: self.as_path_prepend.copy(),
        }
    }

    fn same(&self, other: &Self) -> (r: bool) {
        self.set_local_pref.same(&other.set_local_pref)
            && self.set_med.same(&other.set_med)
            && self.add_community.same(&other.add_community)
            && self.remove_communities.same(&other.remove_communities)
            && self.as_path_prepend.same(&other.as_path_prepend)
    }
}

impl ActionView {
    /// No rewrite.
    pub open spec fn empty() -> ActionView {
        ActionView {
            set_local_pref: None,
            set_med: None,
            add_community: None,
            remove_communities: Seq::empty(),
            as_path_prepend: None,
        }
    }
}

impl Default for Action {
    fn default() -> (r: Action)
        ensures
            r@ == ActionView::empty(),
    {
        let r = Action {
            set_local_pref: None,
            set_med: None,
            add_community: None,
            remove_communities: Vec::new(),
            as_path_prepend: None,
        };
        assert(r@ =~= ActionView::empty());
        r
    }
}

/// One rule of a policy.
#[derive(Clone, Debug, PartialEq, Eq)]
pub struct Rule {
    pub id: String,
    pub description: String,
    pub when: Match,
    pub do_: Action,
    pub on_match: OnMatch,
}

/// What a [`Rule`] holds.
#[verifier::ext_equal]
pub struct RuleView {
    pub id: Chars,
    pub description: Chars,
    pub when: MatchView,
    pub do_: ActionView,
    pub on_match: OnMatch,
}

impl View for Rule {
    type V = RuleView;

    open spec fn view(&self) -> RuleView {
        RuleView {
            id: self.id.deep_view(),
            description: self.description.deep_view(),
            when: self.when.deep_view(),
            do_: self.do_.deep_view(),
            on_match: self.on_match,
        }
    }
}

impl DeepView for Rule {
    type V = RuleView;

    open spec fn deep_view(&self) -> RuleView {
        self@
    }
}

impl Value for Rule {
    fn copy(&self) -> (r: Self) {
        Rule {
            id: self.id.copy(),
            description: self.description.copy(),
            when: self.when.copy(),
            do_: self.do_.copy(),
            on_match: self.on_match,
        }
    }

    fn same(&self, other: &Self) -> (r: bool) {
        self.id.same(&other.id)
            && self.description.same(&other.description)
            && self.when.same(&other.when)
            && self.do_.same(&other.do_)
            && self.on_match == other.on_match
    }
}

/// What a rule that names nothing does after a match.
pub fn default_on_match() -> (r: OnMatch)
    ensures
        r == OnMatch::Continue,
{
    OnMatch::Continue
}

/// Import and export policy attached to a node.
#[derive(Clone, Debug, PartialEq, Eq)]
pub struct Policy {
    pub import: Vec<Rule>,
    pub export: Vec<Rule>,
}

/// What a [`Policy`] holds.
#[verifier::ext_equal]
pub struct PolicyView {
    pub import: Seq<RuleView>,
    pub export: Seq<RuleView>,
}

impl View for Policy {
    type V = PolicyView;

    open spec fn view(&self) -> PolicyView {
        PolicyView {
            import: self.import.deep_view(),
            export: self.export.deep_view(),
        }
    }
}

impl DeepView for Policy {
    type V = PolicyView;

    open spec fn deep_view(&self) -> PolicyView {
        self@
    }
}

impl Value for Policy {
    fn copy(&self) -> (r: Self) {
        Policy {
            import: self.import.copy(),
            export: self.export.copy(),
        }
    }

    fn same(&self, other: &Self) -> (r: bool) {
        self.import.same(&other.import)
            && self.export.same(&other.export)
    }
}

impl PolicyView {
    /// No rules.
    pub open spec fn empty() -> PolicyView {
        PolicyView {
            import: Seq::empty(),
            export: Seq::empty(),
        }
    }
}

impl Default for Policy {
    fn default() -> (r: Policy)
        ensures
            r@ == PolicyView::empty(),
    {
        let r = Policy {
            import: Vec::new(),
            export: Vec::new(),
        };
        assert(r@ =~= PolicyView::empty());
        r
    }
}

// ---------- scenarios ----------

/// Initial prefix injection (stable announcement).
#[derive(Clone, Debug, PartialEq, Eq)]
pub struct Announcement {
    pub id: String,
    pub node: NodeId,
    pub prefix: Prefix,
    pub local_pref: i64,
    pub med: Option<i64>,
    pub communities: Vec<String>,
}

/// What a [`Announcement`] holds.
#[verifier::ext_equal]
pub struct AnnouncementView {
    pub id: Chars,
    pub node: Chars,
    pub prefix: Chars,
    pub local_pref: i64,
    pub med: Option<i64>,
    pub communities: Seq<Chars>,
}

impl View for Announcement {
    type V = AnnouncementView;

    open spec fn view(&self) -> AnnouncementView {
        AnnouncementView {
            id: self.id.deep_view(),
            node: self.node.deep_view(),
            prefix: self.prefix.deep_view(),
            local_pref: self.local_pref,
            med: self.med.deep_view(),
            communities: self.communities.deep_view(),
        }
    }
}

impl DeepView for Announcement {
    type V = AnnouncementView;

    open spec fn deep_view(&self) -> AnnouncementView {
        self@
    }
}

impl Value for Announcement {
    fn copy(&self) -> (r: Self) {
        Announcement {
            id: self.id.copy(),
            node: self.node.copy(),
            prefix: self.prefix.copy(),
            local_pref: self.local_pref,
            med: self.med.copy(),
            communities: self.communities.copy(),
        }
    }

    fn same(&self, other: &Self) -> (r: bool) {
        self.id.same(&other.id)
            && self.node.same(&other.node)
            && self.prefix.same(&other.prefix)
            && self.local_pref == other.local_pref
            && self.med.same(&other.med)
            && self.communities.same(&other.communities)
    }
}

/// The MED of an announcement that names none.
pub fn default_med_zero() -> (r: Option<i64>)
    ensures
        r == Some(0i64),
{
    Some(0)
}

/// A virtual event: withdrawal of a previously announced prefix or a neighbor restart.
#[derive(Clone, Debug, PartialEq, Eq)]
pub enum EventSpec {
    Withdraw { id: String, announcement: String, tick: u64 },
    Restart { id: String, node: NodeId, tick: u64 },
}

/// What an [`EventSpec`] holds.
#[verifier::ext_equal]
pub enum EventSpecView {
    Withdraw { id: Chars, announcement: Chars, tick: u64 },
    Restart { id: Chars, node: Chars, tick: u64 },
}

impl View for EventSpec {
    type V = EventSpecView;

    open spec fn view(&self) -> EventSpecView {
        match self {
            EventSpec::Withdraw { id, announcement, tick } => EventSpecView::Withdraw {
                id: id@,
                announcement: announcement@,
                tick: *tick,
            },
            EventSpec::Restart { id, node, tick } => EventSpecView::Restart {
                id: id@,
                node: node@,
                tick: *tick,
            },
        }
    }
}

impl DeepView for EventSpec {
    type V = EventSpecView;

    open spec fn deep_view(&self) -> EventSpecView {
        self@
    }
}

impl Value for EventSpec {
    fn copy(&self) -> (r: Self) {
        match self {
            EventSpec::Withdraw { id, announcement, tick } => EventSpec::Withdraw {
                id: id.clone(),
                announcement: announcement.clone(),
                tick: *tick,
            },
            EventSpec::Restart { id, node, tick } => EventSpec::Restart {
                id: id.clone(),
                node: node.clone(),
                tick: *tick,
            },
        }
    }

    fn same(&self, other: &Self) -> (r: bool) {
        match (self, other) {
            (
                EventSpec::Withdraw { id, announcement, tick },
                EventSpec::Withdraw { id: id2, announcement: announcement2, tick: tick2 },
            ) => id.same(id2) && announcement.same(announcement2) && *tick == *tick2,
            (
                EventSpec::Restart { id, node, tick },
                EventSpec::Restart { id: id2, node: node2, tick: tick2 },
            ) => id.same(id2) && node.same(node2) && *tick == *tick2,
            _ => false,
        }
    }
}

impl EventSpecView {
    pub open spec fn when(self) -> u64 {
        match self {
            EventSpecView::Withdraw { tick, .. } => tick,
            EventSpecView::Restart { tick, .. } => tick,
        }
    }

    pub open spec fn name(self) -> Chars {
        match self {
            EventSpecView::Withdraw { id, .. } => id,
            EventSpecView::Restart { id, .. } => id,
        }
    }
}

impl EventSpec {
    /// When the event happens.
    pub fn tick(&self) -> (r: u64)
        ensures
            r == self@.when(),
    {
        match self {
            EventSpec::Withdraw { tick, .. } => *tick,
            EventSpec::Restart { tick, .. } => *tick,
        }
    }

    /// The id of the event.
    pub fn id(&self) -> (r: &str)
        ensures
            r@ == self@.name(),
    {
        match self {
            EventSpec::Withdraw { id, .. } => id.as_str(),
            EventSpec::Restart { id, .. } => id.as_str(),
        }
    }
}

/// A node of the topology.
#[derive(Clone, Debug, PartialEq, Eq)]
pub struct NodeSpec {
    pub asn: u32,
    /// Where the node is drawn, as the text of a JSON number.
    pub x: String,
    pub y: String,
    pub policy: Policy,
}

/// What a [`NodeSpec`] holds.
#[verifier::ext_equal]
pub struct NodeSpecView {
    pub asn: u32,
    pub x: Chars,
    pub y: Chars,
    pub policy: PolicyView,
}

impl View for NodeSpec {
    type V = NodeSpecView;

    open spec fn view(&self) -> NodeSpecView {
        NodeSpecView {
            asn: self.asn,
            x: self.x.deep_view(),
            y: self.y.deep_view(),
            policy: self.policy.deep_view(),
        }
    }
}

impl DeepView for NodeSpec {
    type V = NodeSpecView;

    open spec fn deep_view(&self) -> NodeSpecView {
        self@
    }
}

impl Value for NodeSpec {
    fn copy(&self) -> (r: Self) {
        NodeSpec {
            asn: self.asn,
            x: self.x.copy(),
            y: self.y.copy(),
            policy: self.policy.copy(),
        }
    }

    fn same(&self, other: &Self) -> (r: bool) {
        self.asn == other.asn
            && self.x.same(&other.x)
            && self.y.same(&other.y)
            && self.policy.same(&other.policy)
    }
}

/// Everything a simulation starts from.
#[derive(Debug)]
pub struct ScenarioInput {
    pub name: String,
    pub description: String,
    pub nodes: OrdMap<NodeId, NodeSpec>,
    pub sessions: Vec<Session>,
    pub announcements: Vec<Announcement>,
    pub events: Vec<EventSpec>,
    /// Safety cap on processed virtual messages; exceeding it yields an `inconclusive`
    /// verdict, never a claimed non-convergence.
    pub max_iterations: usize,
}

/// What a [`ScenarioInput`] holds.
#[verifier::ext_equal]
pub struct ScenarioInputView {
    pub name: Chars,
    pub description: Chars,
    pub nodes: Map<Chars, NodeSpecView>,
    pub sessions: Seq<SessionView>,
    pub announcements: Seq<AnnouncementView>,
    pub events: Seq<EventSpecView>,
    pub max_iterations: usize,
}

impl View for ScenarioInput {
    type V = ScenarioInputView;

    open spec fn view(&self) -> ScenarioInputView {
        ScenarioInputView {
            name: self.name.deep_view(),
            description: self.description.deep_view(),
            nodes: self.nodes.deep_view(),
            sessions: self.sessions.deep_view(),
            announcements: self.announcements.deep_view(),
            events: self.events.deep_view(),
            max_iterations: self.max_iterations,
        }
    }
}

impl DeepView for ScenarioInput {
    type V = ScenarioInputView;

    open spec fn deep_view(&self) -> ScenarioInputView {
        self@
    }
}

impl Value for ScenarioInput {
    fn copy(&self) -> (r: Self) {
        ScenarioInput {
            name: self.name.copy(),
            description: self.description.copy(),
            nodes: self.nodes.copy(),
            sessions: self.sessions.copy(),
            announcements: self.announcements.copy(),
            events: self.events.copy(),
            max_iterations: self.max_iterations,
        }
    }

    fn same(&self, other: &Self) -> (r: bool) {
        self.name.same(&other.name)
            && self.description.same(&other.description)
            && self.nodes.same(&other.nodes)
            && self.sessions.same(&other.sessions)
            && self.announcements.same(&other.announcements)
            && self.events.same(&other.events)
            && self.max_iterations == other.max_iterations
    }
}

/// The safety cap of a scenario that names none.
pub fn default_max_iterations() -> (r: usize)
    ensures
        r == 100_000,
{
    100_000
}

// ---------- edits ----------

/// Which of the two rule lists of a policy.
#[derive(Clone, Copy, Debug, PartialEq, Eq, Structural)]
pub enum Direction {
    Import,
    Export,
}

impl DeepView for Direction {
    type V = Direction;

    open spec fn deep_view(&self) -> Direction {
        *self
    }
}

impl Value for Direction {
    fn copy(&self) -> (r: Self) {
        *self
    }

    fn same(&self, other: &Self) -> (r: bool) {
        *self == *other
    }
}

impl Direction {
    pub open spec fn name(self) -> Chars {
        match self {
            Direction::Import => "import"@,
            Direction::Export => "export"@,
        }
    }

    pub fn as_str(&self) -> (r: &'static str)
        ensures
            r@ == self.name(),
    {
        match self {
            Direction::Import => "import",
            Direction::Export => "export",
        }
    }
}

/// Names one rule of one policy.
#[derive(Clone, Debug, PartialEq, Eq)]
pub struct RuleRef {
    pub node: NodeId,
    pub direction: Direction,
    pub rule: String,
}

/// What a [`RuleRef`] holds.
#[verifier::ext_equal]
pub struct RuleRefView {
    pub node: Chars,
    pub direction: Direction,
    pub rule: Chars,
}

impl View for RuleRef {
    type V = RuleRefView;

    open spec fn view(&self) -> RuleRefView {
        RuleRefView {
            node: self.node.deep_view(),
            direction: self.direction,
            rule: self.rule.deep_view(),
        }
    }
}

impl DeepView for RuleRef {
    type V = RuleRefView;

    open spec fn deep_view(&self) -> RuleRefView {
        self@
    }
}

impl Value for RuleRef {
    fn copy(&self) -> (r: Self) {
        RuleRef {
            node: self.node.copy(),
            direction: self.direction,
            rule: self.rule.copy(),
        }
    }

    fn same(&self, other: &Self) -> (r: bool) {
        self.node.same(&other.node)
            && self.direction == other.direction
            && self.rule.same(&other.rule)
    }
}

/// Replaces the rule of the same id, or appends it if `upsert`.
#[derive(Clone, Debug, PartialEq, Eq)]
pub struct RuleEdit {
    pub node: NodeId,
    pub direction: Direction,
    pub rule: Rule,
    pub upsert: bool,
}

/// What a [`RuleEdit`] holds.
#[verifier::ext_equal]
pub struct RuleEditView {
    pub node: Chars,
    pub direction: Direction,
    pub rule: RuleView,
    pub upsert: bool,
}

impl View for RuleEdit {
    type V = RuleEditView;

    open spec fn view(&self) -> RuleEditView {
        RuleEditView {
            node: self.node.deep_view(),
            direction: self.direction,
            rule: self.rule.deep_view(),
            upsert: self.upsert,
        }
    }
}

impl DeepView for RuleEdit {
    type V = RuleEditView;

    open spec fn deep_view(&self) -> RuleEditView {
        self@
    }
}

impl Value for RuleEdit {
    fn copy(&self) -> (r: Self) {
        RuleEdit {
            node: self.node.copy(),
            direction: self.direction,
            rule: self.rule.copy(),
            upsert: self.upsert,
        }
    }

    fn same(&self, other: &Self) -> (r: bool) {
        self.node.same(&other.node)
            && self.direction == other.direction
            && self.rule.same(&other.rule)
            && self.upsert == other.upsert
    }
}

/// Runtime edits used by previews and commits.
#[derive(Clone, Debug, PartialEq, Eq)]
pub struct EditSet {
    /// Replace a rule (matched by node + direction + rule id), or insert if `upsert`.
    pub rules: Vec<RuleEdit>,
    pub removed_rule_ids: Vec<RuleRef>,
    pub withdraw: Vec<String>,
    pub restart: Vec<NodeId>,
    /// When the injected events happen, relative to the end of the base timeline.
    pub restart_tick: Option<u64>,
}

/// What a [`EditSet`] holds.
#[verifier::ext_equal]
pub struct EditSetView {
    pub rules: Seq<RuleEditView>,
    pub removed_rule_ids: Seq<RuleRefView>,
    pub withdraw: Seq<Chars>,
    pub restart: Seq<Chars>,
    pub restart_tick: Option<u64>,
}

impl View for EditSet {
    type V = EditSetView;

    open spec fn view(&self) -> EditSetView {
        EditSetView {
            rules: self.rules.deep_view(),
            removed_rule_ids: self.removed_rule_ids.deep_view(),
            withdraw: self.withdraw.deep_view(),
            restart: self.restart.deep_view(),
            restart_tick: self.restart_tick.deep_view(),
        }
    }
}

impl DeepView for EditSet {
    type V = EditSetView;

    open spec fn deep_view(&self) -> EditSetView {
        self@
    }
}

impl Value for EditSet {
    fn copy(&self) -> (r: Self) {
        EditSet {
            rules: self.rules.copy(),
            removed_rule_ids: self.removed_rule_ids.copy(),
            withdraw: self.withdraw.copy(),
            restart: self.restart.copy(),
            restart_tick: self.restart_tick.copy(),
        }
    }

    fn same(&self, other: &Self) -> (r: bool) {
        self.rules.same(&other.rules)
            && self.removed_rule_ids.same(&other.removed_rule_ids)
            && self.withdraw.same(&other.withdraw)
            && self.restart.same(&other.restart)
            && self.restart_tick.same(&other.restart_tick)
    }
}

impl EditSetView {
    /// No edits.
    pub open spec fn empty() -> EditSetView {
        EditSetView {
            rules: Seq::empty(),
            removed_rule_ids: Seq::empty(),
            withdraw: Seq::empty(),
            restart: Seq::empty(),
            restart_tick: None,
        }
    }
}

impl Default for EditSet {
    fn default() -> (r: EditSet)
        ensures
            r@ == EditSetView::empty(),
    {
        let r = EditSet {
            rules: Vec::new(),
            removed_rule_ids: Vec::new(),
            withdraw: Vec::new(),
            restart: Vec::new(),
            restart_tick: None,
        };
        assert(r@ =~= EditSetView::empty());
        r
    }
}

// ---------- laws ----------

/// A route of the node's own is preferred to one heard over eBGP, and that to one heard over
/// iBGP.
pub proof fn law_provenances_are_ranked(r: RouteView)
    ensures
        Provenance::Origin.rank_of() < Provenance::EBgp.rank_of() < Provenance::IBgp.rank_of(),
        r.provenance == Provenance::Origin <==> r.provenance.rank_of() == 0,
{
}

/// The neighbor is the AS that put itself in front of the path last; a missing MED counts as
/// zero.
pub proof fn law_last_prepended_is_the_neighbor(r: RouteView, asn: u32)
    ensures
        (RouteView { as_path: seq![asn] + r.as_path, ..r }).neighbor_as() == Some(asn),
        r.as_path.len() == 0 ==> r.neighbor_as() == r.first_as,
        r.med is Some ==> r.med_or_zero() == r.med->0,
        r.med is None ==> r.med_or_zero() == 0,
{
}

/// A route of the node's own has crossed no session: its path is empty, and it is known as the
/// node's own by its provenance and its first AS.
pub proof fn law_own_route_has_an_empty_path(prefix: Chars, own_as: u32)
    ensures
        ({
            let r = RouteView::origin(prefix, own_as);
            &&& r.prefix == prefix
            &&& r.as_path.len() == 0
            &&& r.communities.len() == 0
            &&& r.local_pref == 100
            &&& r.med == Some(0i64)
            &&& r.provenance == Provenance::Origin
            &&& r.ingress_session is None
            &&& r.neighbor_as() == Some(own_as)
        }),
{
}

/// The names of kinds, of provenances and of operators tell them apart.
pub proof fn law_names_tell_apart(
    k: SessionKind,
    l: SessionKind,
    p: Provenance,
    q: Provenance,
    a: Cmp,
    b: Cmp,
)
    ensures
        k.name() == l.name() ==> k == l,
        p.name() == q.name() ==> p == q,
        a.label() == b.label() ==> a == b,
        k.name() == p.name() ==> (k == SessionKind::EBgp <==> p == Provenance::EBgp) && (k
            == SessionKind::IBgp <==> p == Provenance::IBgp),
{
    reveal_strlit("ebgp");
    reveal_strlit("ibgp");
    reveal_strlit("origin");
    reveal_strlit("Eq");
    reveal_strlit("Ne");
    reveal_strlit("In");
    reveal_strlit("NotIn");
    reveal_strlit("Matches");
    reveal_strlit("Gte");
    reveal_strlit("Lte");
    assert("ebgp"@[0] == 'e' && "ibgp"@[0] == 'i' && "origin"@[0] == 'o');
    assert("Eq"@[0] == 'E' && "Ne"@[0] == 'N' && "In"@[0] == 'I' && "NotIn"@[0] == 'N');
    assert("Eq"@.len() == 2 && "Ne"@.len() == 2 && "In"@.len() == 2 && "NotIn"@.len() == 5);
    assert("Matches"@[0] == 'M' && "Gte"@[0] == 'G' && "Lte"@[0] == 'L');
}

} // verus!
