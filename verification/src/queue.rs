//! The virtual event queue. Messages leave it by tick and, within a tick, in the order in
//! which they were scheduled. A message on a session for a prefix supersedes what is
//! still queued there.

use crate::model::{NodeId, Prefix, Route, RouteView, Session, SessionId, SessionView};
use crate::text::Chars;
use crate::value::Value;
use vstd::prelude::*;

verus! {

/// What a queued message asks for.
#[derive(Clone, Copy, Debug, PartialEq, Eq, Structural)]
pub enum MsgKind {
    OriginInject,
    OriginWithdraw,
    Receive,
    Withdraw,
    Restart,
}

impl DeepView for MsgKind {
    type V = MsgKind;

    open spec fn deep_view(&self) -> MsgKind {
        *self
    }
}

impl Value for MsgKind {
    fn copy(&self) -> (r: Self) {
        *self
    }

    fn same(&self, other: &Self) -> (r: bool) {
        *self == *other
    }
}

impl MsgKind {
    pub open spec fn order(self) -> u8 {
        match self {
            MsgKind::Restart => 0,
            MsgKind::OriginWithdraw => 1,
            MsgKind::OriginInject => 2,
            MsgKind::Withdraw => 3,
            MsgKind::Receive => 4,
        }
    }

    /// The number of a kind in state signatures.
    pub fn order_key_kind(&self) -> (r: u8)
        ensures
            r == self.order(),
    {
        match self {
            MsgKind::Restart => 0,
            MsgKind::OriginWithdraw => 1,
            MsgKind::OriginInject => 2,
            MsgKind::Withdraw => 3,
            MsgKind::Receive => 4,
        }
    }
}

/// A queued message.
#[derive(Clone, Debug, PartialEq, Eq)]
pub struct Scheduled {
    pub tick: u64,
    pub kind: MsgKind,
    pub node: NodeId,
    pub session: Option<SessionId>,
    pub prefix: Option<Prefix>,
    pub route: Option<Route>,
    /// Whether a fresher message for the same session and prefix has been scheduled.
    pub stale: bool,
}

/// What a [`Scheduled`] holds.
#[verifier::ext_equal]
pub struct ScheduledView {
    pub tick: u64,
    pub kind: MsgKind,
    pub node: Chars,
    pub session: Option<Chars>,
    pub prefix: Option<Chars>,
    pub route: Option<RouteView>,
    pub stale: bool,
}

impl View for Scheduled {
    type V = ScheduledView;

    open spec fn view(&self) -> ScheduledView {
        ScheduledView {
            tick: self.tick,
            kind: self.kind,
            node: self.node.deep_view(),
            session: self.session.deep_view(),
            prefix: self.prefix.deep_view(),
            route: self.route.deep_view(),
            stale: self.stale,
        }
    }
}

impl DeepView for Scheduled {
    type V = ScheduledView;

    open spec fn deep_view(&self) -> ScheduledView {
        self@
    }
}

impl Value for Scheduled {
    fn copy(&self) -> (r: Self) {
        Scheduled {
            tick: self.tick,
            kind: self.kind,
            node: self.node.copy(),
            session: self.session.copy(),
            prefix: self.prefix.copy(),
            route: self.route.copy(),
            stale: self.stale,
        }
    }

    fn same(&self, other: &Self) -> (r: bool) {
        self.tick == other.tick
            && self.kind == other.kind
            && self.node.same(&other.node)
            && self.session.same(&other.session)
            && self.prefix.same(&other.prefix)
            && self.route.same(&other.route)
            && self.stale == other.stale
    }
}

/// Whether two messages concern the same prefix on the same session.
pub open spec fn same_subject(a: ScheduledView, b: ScheduledView) -> bool {
    a.session is Some && a.prefix is Some && a.session == b.session && a.prefix == b.prefix
}

/// The queue in which what a message supersedes is marked stale.
pub open spec fn superseded(queue: Seq<ScheduledView>, msg: ScheduledView) -> Seq<ScheduledView> {
    queue.map_values(
        |m: ScheduledView|
            ScheduledView { stale: m.stale || same_subject(msg, m), ..m },
    )
}

/// The queue with one more message.
pub open spec fn scheduled(queue: Seq<ScheduledView>, msg: ScheduledView) -> Seq<ScheduledView> {
    superseded(queue, msg).push(msg)
}

/// Appends a message and marks what it supersedes.
pub fn schedule(queue: &mut Vec<Scheduled>, msg: Scheduled)
    ensures
        final(queue).deep_view() == scheduled(old(queue).deep_view(), msg@),
{
    let ghost before = queue.deep_view();
    let mut i: usize = 0;
    while i < queue.len()
        invariant
            i <= queue@.len(),
            queue@.len() == before.len(),
            forall|k: int|
                0 <= k < i ==> (#[trigger] queue@[k])@ == superseded(before, msg@)[k],
            forall|k: int| i <= k < queue@.len() ==> (#[trigger] queue@[k])@ == before[k],
        decreases queue.len() - i,
    {
        let subject = msg.session.is_some() && msg.prefix.is_some() && msg.session.same(
            &queue[i].session,
        ) && msg.prefix.same(&queue[i].prefix);
        if subject {
            let ghost m = queue@[i as int]@;
            queue[i].stale = true;
            assert(queue@[i as int]@ =~= (ScheduledView { stale: true, ..m }));
        }
        i += 1;
    }
    queue.push(msg);
    assert(queue.deep_view() =~= scheduled(before, msg@));
}

/// The position of the message that is due: the first one with the lowest tick.
pub open spec fn due(queue: Seq<ScheduledView>) -> int
    decreases queue.len(),
{
    if queue.len() <= 1 {
        0
    } else {
        let best = due(queue.drop_last());
        if queue.last().tick < queue[best].tick {
            queue.len() - 1
        } else {
            best
        }
    }
}

/// The message that is due comes before all others: no message has a lower tick, and
/// none that was scheduled earlier has the same.
pub proof fn law_due_is_earliest(queue: Seq<ScheduledView>)
    requires
        queue.len() > 0,
    ensures
        0 <= due(queue) < queue.len(),
        forall|k: int|
            0 <= k < queue.len() ==> queue[due(queue)].tick <= (#[trigger] queue[k]).tick,
        forall|k: int| 0 <= k < due(queue) ==> queue[due(queue)].tick < (#[trigger] queue[k]).tick,
    decreases queue.len(),
{
    if queue.len() > 1 {
        let init = queue.drop_last();
        law_due_is_earliest(init);
        let best = due(init);
        assert forall|k: int| 0 <= k < queue.len() implies queue[due(queue)].tick <= (
        #[trigger] queue[k]).tick by {
            if k < init.len() {
                assert(init[best].tick <= init[k].tick);
            }
        }
        assert forall|k: int| 0 <= k < due(queue) implies queue[due(queue)].tick < (
        #[trigger] queue[k]).tick by {
            assert(init[best].tick <= init[k].tick);
            if due(queue) == best {
                assert(init[best].tick < init[k].tick);
            }
        }
    }
}

/// Takes the message that is due out of the queue.
pub fn pop(queue: &mut Vec<Scheduled>) -> (r: Option<Scheduled>)
    ensures
        r is Some <==> old(queue)@.len() > 0,
        r is None ==> final(queue)@ == old(queue)@,
        r matches Some(m) ==> {
            let all = old(queue).deep_view();
            &&& 0 <= due(all) < all.len()
            &&& m@ == all[due(all)]
            &&& final(queue).deep_view() == all.remove(due(all))
        },
{
    if queue.len() == 0 {
        return None;
    }
    let ghost all = queue.deep_view();
    let mut best: usize = 0;
    let mut i: usize = 1;
    assert(all.take(1).len() == 1);
    while i < queue.len()
        invariant
            1 <= i <= queue@.len(),
            all == queue.deep_view(),
            best < i,
            best == due(all.take(i as int)),
        decreases queue.len() - i,
    {
        proof {
            assert(all.take(i + 1).drop_last() =~= all.take(i as int));
            assert(all.take(i + 1)[best as int] == all[best as int]);
            assert(all[i as int] == queue@[i as int]@ && all[best as int] == queue@[best as int]@);
        }
        if queue[i].tick < queue[best].tick {
            best = i;
        }
        i += 1;
    }
    assert(all.take(i as int) =~= all);
    let m = queue.remove(best);
    assert(queue.deep_view() =~= all.remove(best as int));
    Some(m)
}

// ---------- sending ----------

/// A tick that lies a delay after another, at most the last tick there is.
pub open spec fn later(now: u64, delay: u64) -> u64 {
    if now + delay > u64::MAX {
        u64::MAX
    } else {
        (now + delay) as u64
    }
}

/// The message that carries a route, or its withdrawal, over a session. It takes the
/// delay of the session, and at least one tick.
pub open spec fn carried(
    sess: SessionView,
    prefix: Chars,
    route: Option<RouteView>,
    now: u64,
) -> ScheduledView {
    ScheduledView {
        tick: later(
            now,
            if sess.delay > 1 {
                sess.delay
            } else {
                1
            },
        ),
        kind: if route is Some {
            MsgKind::Receive
        } else {
            MsgKind::Withdraw
        },
        node: sess.remote,
        session: Some(sess.id),
        prefix: Some(prefix),
        route,
        stale: false,
    }
}

/// Schedules a route, or its withdrawal, over a session.
pub fn schedule_send(
    queue: &mut Vec<Scheduled>,
    sess: &Session,
    prefix: Prefix,
    route: Option<Route>,
    now: u64,
)
    ensures
        final(queue).deep_view() == scheduled(
            old(queue).deep_view(),
            carried(sess@, prefix@, route.deep_view(), now),
        ),
{
    let delay = if sess.delay > 1 {
        sess.delay
    } else {
        1
    };
    let msg = Scheduled {
        tick: now.saturating_add(delay),
        kind: if route.is_some() {
            MsgKind::Receive
        } else {
            MsgKind::Withdraw
        },
        node: sess.remote.clone(),
        session: Some(sess.id.clone()),
        prefix: Some(prefix),
        route,
        stale: false,
    };
    schedule(queue, msg);
}

/// A fresher message on a session for a prefix leaves every older one for the same
/// session and prefix stale, and itself stands fresh at the end of the queue.
pub proof fn law_fresher_message_supersedes(
    queue: Seq<ScheduledView>,
    msg: ScheduledView,
    k: int,
)
    requires
        0 <= k < queue.len(),
    ensures
        scheduled(queue, msg).last() == msg,
        same_subject(msg, queue[k]) ==> scheduled(queue, msg)[k].stale,
        !same_subject(msg, queue[k]) ==> scheduled(queue, msg)[k] == queue[k],
{
    assert(scheduled(queue, msg)[k] =~= (ScheduledView {
        stale: queue[k].stale || same_subject(msg, queue[k]),
        ..queue[k]
    }));
}

/// What is still queued for the same session and prefix, and only that, becomes stale once a
/// message for them is scheduled; nothing else of a queued message changes, and none leaves.
pub proof fn law_scheduling_keeps_what_is_queued(
    queue: Seq<ScheduledView>,
    msg: ScheduledView,
    k: int,
)
    requires
        0 <= k < queue.len(),
    ensures
        ({
            let after = scheduled(queue, msg);
            &&& after.len() == queue.len() + 1
            &&& after[queue.len() as int] == msg
            &&& after[k] == (ScheduledView { stale: after[k].stale, ..queue[k] })
            &&& after[k].stale <==> {
                ||| queue[k].stale
                ||| msg.session is Some && msg.prefix is Some && queue[k].session == msg.session
                    && queue[k].prefix == msg.prefix
            }
        }),
{
}

/// A message over a session goes to its remote end, carries the route or, without one, its
/// withdrawal, and arrives when the delay of the session has passed, but no sooner than the
/// next tick. Time does not go beyond the last tick there is.
pub proof fn law_message_crosses_its_session(
    sess: SessionView,
    prefix: Chars,
    route: Option<RouteView>,
    now: u64,
)
    ensures
        ({
            let m = carried(sess, prefix, route, now);
            let wait: int = if sess.delay == 0 { 1 } else { sess.delay as int };
            &&& m.node == sess.remote
            &&& m.session == Some(sess.id)
            &&& m.prefix == Some(prefix)
            &&& m.route == route
            &&& !m.stale
            &&& m.kind == MsgKind::Receive <==> route is Some
            &&& m.kind == MsgKind::Withdraw <==> route is None
            &&& m.tick == (if now + wait > u64::MAX { u64::MAX as int } else { now + wait })
        }),
{
}

} // verus!
