//! The engine's guarantees, stated and proved over the phase contracts:
//! no-op stability, single firing per tick, glitch suppression,
//! at-most-one concurrent task, and subscription commit ordering.

use vstd::prelude::*;

use crate::signals::{Entity, LazyImmutable, SignalsError, Value, veq};
use crate::api::{LazySignals, NodeKind};

verus! {

/// No-op stability: a cell whose staged value is equal, under the value
/// equality, to its committed value does not merge a change.
pub proof fn no_op_merge_is_stable(c: LazyImmutable, v: Value)
    requires
        c.next_value == Some(v),
        veq(v, c.data),
    ensures
        !c.merge_changes(),
        c.merged_data() == c.data,
{
}

/// No-op stability, at the pipeline level: sending a value equal to a
/// signal's current value never adds the signal to `changed`, never
/// moves its committed value, and never hands its subscribers to the
/// wave — any node the external-write phase marked dirty was notified by
/// some other staged cell.
pub proof fn no_op_stability(pre: LazySignals, post: LazySignals, e: Entity, v: Value)
    requires
        LazySignals::send_signals_post(pre, post),
        pre.valid(e),
        pre.node(e).cell.next_value == Some(v),
        veq(v, pre.node(e).cell.data),
        !pre.to_trigger.has(e),
        !pre.res.changed.has(e),
    ensures
        !post.res.changed.has(e),
        post.node(e).cell.data == pre.node(e).cell.data,
        post.node(e).cell.subscribers == pre.node(e).cell.subscribers,
        forall|x: Entity|
            #[trigger] post.res.dirty.has(x) ==> (pre.res.dirty.has(x) || exists|e2: Entity|
                e2 != e && LazySignals::write_notifies(pre, e2)
                    && #[trigger] pre.node(e2).cell.subscribers.has(x)),
{
    assert(!pre.node(e).cell.merge_changes());
    assert(!LazySignals::staged_merges(pre, e));
    assert forall|x: Entity|
        #[trigger] post.res.dirty.has(x) implies (pre.res.dirty.has(x) || exists|e2: Entity|
            e2 != e && LazySignals::write_notifies(pre, e2)
                && #[trigger] pre.node(e2).cell.subscribers.has(x)) by {
        if !pre.res.dirty.has(x) {
            let w = choose|e2: Entity|
                LazySignals::write_notifies(pre, e2)
                    && #[trigger] pre.node(e2).cell.subscribers.has(x);
            assert(w != e);
            assert(pre.node(w).cell.subscribers.has(x));
        }
    }
}

/// Single firing per tick: once the wave hands a computed node out for
/// evaluation, no later request in the same tick yields it again —
/// however many of its sources changed, and however many waves reach it
/// — because the node is marked processed at once and nothing in the
/// wave unmarks it.
pub proof fn single_firing_per_tick(
    s1: LazySignals,
    s2: LazySignals,
    s3: LazySignals,
    s4: LazySignals,
    e: Entity,
    r2: Option<Entity>,
)
    requires
        LazySignals::take_post(s1, s2, Some(e)),
        // any number of wave steps may run in between; each of them
        // only grows the processed set
        forall|x: Entity| #[trigger] s2.processed.has(x) ==> s3.processed.has(x),
        LazySignals::take_post(s3, s4, r2),
    ensures
        r2 != Some(e),
{
    assert(s2.processed.has(e));
    assert(s3.processed.has(e));
}

/// The wave is also complete: when no request is left, every computed
/// node that was notified this tick has been evaluated. Together with
/// `single_firing_per_tick`, a computed node whose sources changed runs
/// exactly once per tick.
pub proof fn wave_completeness(pre: LazySignals, post: LazySignals, e: Entity)
    requires
        LazySignals::take_post(pre, post, None),
        pre.valid(e),
        pre.node(e).kind == NodeKind::Computed,
        pre.res.dirty.has(e),
    ensures
        pre.processed.has(e),
{
}

/// Glitch suppression: when a computed node derives a value equal to its
/// old one, nothing propagates — the node is not recorded as changed, no
/// subscriber joins the wave, and the live subscriber set is kept, so
/// downstream effects do not run on its account.
pub proof fn glitch_suppression(pre: LazySignals, post: LazySignals, e: Entity, v: Value)
    requires
        LazySignals::apply_post(pre, post, e, Some(Ok(v))),
        veq(v, pre.node(e).cell.data),
    ensures
        forall|x: Entity| #[trigger] post.res.changed.has(x) <==> pre.res.changed.has(x),
        forall|x: Entity| #[trigger] post.res.dirty.has(x) <==> pre.res.dirty.has(x),
        post.node(e).cell.data == pre.node(e).cell.data,
        post.node(e).cell.subscribers == pre.node(e).cell.subscribers,
{
}

/// At-most-one concurrent task: an asynchronous effect whose previous
/// execution has not been reaped is never returned by the
/// deferred-effects phase — its trigger is coalesced — and it stays
/// marked running.
pub proof fn at_most_one_concurrent_task(
    pre: LazySignals,
    post: LazySignals,
    fired: Seq<Entity>,
    e: Entity,
)
    requires
        LazySignals::effects_post(pre, post, fired),
        pre.valid(e),
        pre.node(e).kind == NodeKind::Task,
        pre.node(e).running,
    ensures
        !fired.contains(e),
        post.node(e).running,
{
    assert(!LazySignals::fires(pre, e));
    assert(post.nodes@[e.id as int] == post.node(e));
    assert(e == Entity { id: e.id as usize });
}

/// A task the deferred-effects phase does return was idle when the phase
/// began, and is marked running at once, so until `finish_task` reaps it
/// no later phase can spawn it a second time.
pub proof fn task_spawn_marks_running(
    pre: LazySignals,
    post: LazySignals,
    fired: Seq<Entity>,
    e: Entity,
)
    requires
        LazySignals::effects_post(pre, post, fired),
        fired.contains(e),
        pre.node(e).kind == NodeKind::Task,
    ensures
        !pre.node(e).running,
        post.node(e).running,
{
    assert(LazySignals::fires(pre, e));
    assert(e == Entity { id: e.id as usize });
}

/// Subscription commit ordering, first half: a consumer that subscribes
/// by reading (`value`) during a tick is not notified by that same
/// tick's external-write phase, because the subscription is only staged
/// and the notification logic reads the live sets alone.
pub proof fn subscription_not_notified_same_tick(
    s0: LazySignals,
    s1: LazySignals,
    s2: LazySignals,
    source: Entity,
    caller: Entity,
    r: Result<Value, SignalsError>,
)
    requires
        s0.valid(source),
        // the caller sits in no live subscriber set when it reads
        forall|j: int|
            0 <= j < s0.nodes@.len() ==> !(#[trigger] s0.nodes@[j]).cell.subscribers.has(caller),
        !s0.res.dirty.has(caller),
        LazySignals::value_post(s0, s1, Some(source), caller, r),
        LazySignals::send_signals_post(s1, s2),
    ensures
        !s2.res.dirty.has(caller),
{
    assert(s1.res == s0.res);
    if s2.res.dirty.has(caller) {
        let w = choose|e2: Entity|
            LazySignals::write_notifies(s1, e2)
                && #[trigger] s1.node(e2).cell.subscribers.has(caller);
        assert(s1.nodes@[w.id as int] == s1.node(w));
        assert(s0.nodes@[w.id as int].cell.subscribers == s1.node(w).cell.subscribers);
        assert(false);
    }
}

/// Subscription commit ordering, second half: the next tick's
/// subscription phase commits the staged subscription, and from then on
/// a merge of the source that commits a change notifies the caller.
pub proof fn subscription_notified_after_commit(
    s2: LazySignals,
    s3: LazySignals,
    s4: LazySignals,
    source: Entity,
    caller: Entity,
)
    requires
        s2.valid(source),
        s2.node(source).cell.next_subscribers.has(caller),
        LazySignals::init_post(s2, s3),
        LazySignals::send_signals_post(s3, s4),
        LazySignals::staged_merges(s3, source),
    ensures
        s3.node(source).cell.subscribers.has(caller),
        s4.res.dirty.has(caller),
{
    assert(s3.nodes@[source.id as int] == s3.node(source));
    assert(s3.node(source).cell.subscribers.has(caller));
    assert(LazySignals::write_notifies(s3, source));
}

} // verus!
