//! The tick processor: the five-phase pipeline over the node graph.
//!
//! Each tick the host drives, in order: `finish_task` for every completed
//! asynchronous execution (reap), `init_subscribers` (establish new
//! subscriptions), `send_signals` (apply external writes), the computed
//! wave (`take_compute_request` / `materialize_args` /
//! `apply_compute_result`, repeated until no request is left), and
//! `apply_deferred_effects`. The engine decides which node runs and how
//! changes propagate; the host executes the derivation and effect bodies
//! it is handed, since those are arbitrary user code.

use vstd::prelude::*;

use vstd::set_lib::lemma_len_subset;

use crate::signals::{Entity, LazyImmutable, Value, veq};
use crate::api::{LazySignals, Node, NodeKind, TickError};

verus! {

/// An owned copy of a handle list.
fn copy_entities(v: &Vec<Entity>) -> (r: Vec<Entity>)
    ensures
        r@ == v@,
{
    let mut r: Vec<Entity> = Vec::new();
    let mut i: usize = 0;
    while i < v.len()
        invariant
            i <= v@.len(),
            r@ == v@.subrange(0, i as int),
        decreases v@.len() - i,
    {
        r.push(v[i]);
        assert(r@ =~= v@.subrange(0, i + 1 as int));
        i += 1;
    }
    assert(r@ =~= v@);
    r
}

/// Every handle a store of `n` nodes can hold.
spec fn entity_universe(n: nat) -> Set<Entity> {
    Set::new(|e: Entity| e.id < n)
}

/// The universe of `n` handles has exactly `n` members.
proof fn lemma_entity_universe_len(n: nat)
    requires
        n <= usize::MAX,
    ensures
        entity_universe(n).finite(),
        entity_universe(n).len() == n,
    decreases n,
{
    broadcast use vstd::set::group_set_axioms;

    if n == 0 {
        assert(entity_universe(0) =~= Set::<Entity>::empty());
    } else {
        lemma_entity_universe_len((n - 1) as nat);
        let prev = entity_universe((n - 1) as nat);
        let last = Entity { id: (n - 1) as usize };
        assert forall|e: Entity| entity_universe(n).contains(e) <==> prev.insert(last).contains(e) by {
            if e.id == n - 1 {
                assert(e == last);
            }
        }
        assert(entity_universe(n) =~= prev.insert(last));
        assert(!prev.contains(last));
    }
}

/// Membership steps one element at a time along a prefix of a sequence.
proof fn lemma_subrange_step(s: Seq<Entity>, t: int, x: Entity)
    requires
        0 <= t < s.len(),
    ensures
        s.subrange(0, t + 1).contains(x) <==> (s.subrange(0, t).contains(x) || s[t] == x),
{
    let s0 = s.subrange(0, t);
    let s1 = s.subrange(0, t + 1);
    if s1.contains(x) {
        let k = choose|k: int| 0 <= k < s1.len() && s1[k] == x;
        if k < t {
            assert(s0[k] == x);
        }
    }
    if s0.contains(x) {
        let k = choose|k: int| 0 <= k < s0.len() && s0[k] == x;
        assert(s1[k] == x);
    }
    if s[t] == x {
        assert(s1[t] == x);
    }
}

impl LazySignals {
    /// Resets the per-tick bookkeeping. The node store, including the
    /// long-lived `running` flags, the staged writes, and the staged
    /// subscribers, all survive into the new tick.
    pub fn begin_tick(&mut self)
        ensures
            final(self).nodes@ == old(self).nodes@,
            final(self).res.is_fresh(),
            final(self).to_send == old(self).to_send,
            final(self).to_trigger == old(self).to_trigger,
            final(self).processed.is_empty_spec(),
            final(self).in_flight is None,
    {
        self.res.init();
        self.processed.clear();
        self.in_flight = None;
    }

    /// Reap phase: the host reports that the outstanding asynchronous
    /// execution of `e` completed, which clears `running` — the only way
    /// it is ever cleared. The execution's deferred mutation batch is
    /// handed back as ordinary `send` / `trigger` staged writes.
    pub fn finish_task(&mut self, e: Entity)
        requires
            old(self).valid(e),
        ensures
            final(self).nodes@ == old(self).nodes@.update(
                e.id as int,
                Node { running: false, ..old(self).node(e) },
            ),
            final(self).res == old(self).res,
            final(self).to_send == old(self).to_send,
            final(self).to_trigger == old(self).to_trigger,
            final(self).processed == old(self).processed,
            final(self).in_flight == old(self).in_flight,
    {
        let n = &mut self.nodes[e.id];
        n.running = false;
        assert(self.nodes@ =~= old(self).nodes@.update(
            e.id as int,
            Node { running: false, ..old(self).node(e) },
        ));
    }

    /// Stages `caller` as a subscriber of `source`, without committing.
    fn stage_sub(&mut self, source: Entity, caller: Entity)
        ensures
            final(self).nodes@.len() == old(self).nodes@.len(),
            forall|i: int|
                0 <= i < old(self).nodes@.len() && i != source.id
                    ==> final(self).nodes@[i] == old(self).nodes@[i],
            old(self).valid(source) ==> {
                &&& final(self).node(source) == Node {
                    cell: LazyImmutable {
                        next_subscribers: final(self).node(source).cell.next_subscribers,
                        ..old(self).node(source).cell
                    },
                    ..old(self).node(source)
                }
                &&& forall|x: Entity|
                    final(self).node(source).cell.next_subscribers.has(x)
                        <==> (old(self).node(source).cell.next_subscribers.has(x) || x == caller)
            },
            !old(self).valid(source) ==> final(self).nodes@ == old(self).nodes@,
            final(self).res == old(self).res,
            final(self).to_send == old(self).to_send,
            final(self).to_trigger == old(self).to_trigger,
            final(self).processed == old(self).processed,
            final(self).in_flight == old(self).in_flight,
    {
        if source.id < self.nodes.len() {
            let n = &mut self.nodes[source.id];
            n.cell.subscribe(caller);
        }
    }

    /// The node `x`, marked for rebuild in `pre`, lists `j` among its
    /// sources or triggers.
    pub open spec fn rebuild_wants(pre: Self, x: Entity, j: Entity) -> bool {
        pre.valid(x) && pre.node(x).rebuild && Self::subscribes_to(pre.node(x), j)
    }

    /// What the subscription phase guarantees: every rebuild mark is
    /// cleared; every cell's live subscriber set gains its staged
    /// subscribers and every node marked for rebuild that lists it as a
    /// source or trigger; the staging sets end empty; nothing else moves.
    pub open spec fn init_post(pre: Self, post: Self) -> bool {
        &&& post.nodes@.len() == pre.nodes@.len()
        &&& forall|j: int|
            0 <= j < pre.nodes@.len() ==> {
                let a = pre.nodes@[j];
                let b = #[trigger] post.nodes@[j];
                &&& b.kind == a.kind
                &&& b.sources == a.sources
                &&& b.triggers == a.triggers
                &&& b.running == a.running
                &&& b.rebuild == false
                &&& b.cell.data == a.cell.data
                &&& b.cell.next_value == a.cell.next_value
                &&& b.cell.next_subscribers.is_empty_spec()
                &&& forall|x: Entity|
                    b.cell.subscribers.has(x)
                        <==> (a.cell.subscribers.has(x) || a.cell.next_subscribers.has(x)
                            || Self::rebuild_wants(pre, x, Entity { id: j as usize }))
            }
        &&& post.res == pre.res
        &&& post.to_send == pre.to_send
        &&& post.to_trigger == pre.to_trigger
        &&& post.processed == pre.processed
        &&& post.in_flight == pre.in_flight
    }

    /// Subscription phase: for every node marked for rebuild (freshly
    /// created, or explicitly re-wired), subscribes it to each of its
    /// declared sources and triggers, then commits every cell's staged
    /// subscribers into its live set. After this phase a new node is
    /// guaranteed to receive the next change even though it has not yet
    /// performed an explicit read, and every subscription staged by a
    /// read during the previous tick becomes live.
    pub fn init_subscribers(&mut self)
        ensures
            Self::init_post(*old(self), *final(self)),
    {
        let n_nodes = self.nodes.len();
        let mut k: usize = 0;
        while k < n_nodes
            invariant
                n_nodes == old(self).nodes@.len(),
                self.nodes@.len() == old(self).nodes@.len(),
                k <= n_nodes,
                forall|j: int|
                    0 <= j < old(self).nodes@.len() ==> {
                        let a = old(self).nodes@[j];
                        let b = #[trigger] self.nodes@[j];
                        &&& b.kind == a.kind
                        &&& b.sources == a.sources
                        &&& b.triggers == a.triggers
                        &&& b.running == a.running
                        &&& b.rebuild == (a.rebuild && j >= k)
                        &&& b.cell.data == a.cell.data
                        &&& b.cell.next_value == a.cell.next_value
                        &&& b.cell.subscribers == a.cell.subscribers
                        &&& forall|x: Entity|
                            b.cell.next_subscribers.has(x)
                                <==> (a.cell.next_subscribers.has(x)
                                    || (x.id < k && Self::rebuild_wants(
                                        *old(self),
                                        x,
                                        Entity { id: j as usize },
                                    )))
                    },
                self.res == old(self).res,
                self.to_send == old(self).to_send,
                self.to_trigger == old(self).to_trigger,
                self.processed == old(self).processed,
                self.in_flight == old(self).in_flight,
            decreases n_nodes - k,
        {
            let caller = Entity { id: k };
            if self.nodes[k].rebuild {
                let srcs = copy_entities(&self.nodes[k].sources);
                let trigs = copy_entities(&self.nodes[k].triggers);
                let ghost mid = *self;
                let mut t: usize = 0;
                while t < srcs.len()
                    invariant
                        t <= srcs@.len(),
                        srcs@ == old(self).nodes@[k as int].sources@,
                        trigs@ == old(self).nodes@[k as int].triggers@,
                        k < n_nodes,
                        n_nodes == old(self).nodes@.len(),
                        self.nodes@.len() == old(self).nodes@.len(),
                        forall|j: int|
                            0 <= j < old(self).nodes@.len() ==> {
                                let m = mid.nodes@[j];
                                let b = #[trigger] self.nodes@[j];
                                &&& b == Node {
                                    cell: LazyImmutable {
                                        next_subscribers: b.cell.next_subscribers,
                                        ..m.cell
                                    },
                                    ..m
                                }
                                &&& forall|x: Entity|
                                    b.cell.next_subscribers.has(x)
                                        <==> (m.cell.next_subscribers.has(x)
                                            || (x == caller && srcs@.subrange(0, t as int).contains(
                                                Entity { id: j as usize },
                                            )))
                            },
                        self.res == old(self).res,
                        self.to_send == old(self).to_send,
                        self.to_trigger == old(self).to_trigger,
                        self.processed == old(self).processed,
                        self.in_flight == old(self).in_flight,
                    decreases srcs@.len() - t,
                {
                    let s = srcs[t];
                    self.stage_sub(s, caller);
                    proof {
                        assert forall|j: int, x: Entity| 0 <= j < old(self).nodes@.len() implies
                            ((#[trigger] self.nodes@[j].cell.next_subscribers.has(x))
                                <==> (mid.nodes@[j].cell.next_subscribers.has(x)
                                    || (x == caller && srcs@.subrange(0, t + 1 as int).contains(
                                        Entity { id: j as usize },
                                    )))) by {
                            lemma_subrange_step(srcs@, t as int, Entity { id: j as usize });
                        }
                    }
                    t += 1;
                }
                assert(srcs@.subrange(0, srcs@.len() as int) =~= srcs@);
                let ghost mid2 = *self;
                let mut t: usize = 0;
                while t < trigs.len()
                    invariant
                        t <= trigs@.len(),
                        srcs@ == old(self).nodes@[k as int].sources@,
                        trigs@ == old(self).nodes@[k as int].triggers@,
                        k < n_nodes,
                        n_nodes == old(self).nodes@.len(),
                        self.nodes@.len() == old(self).nodes@.len(),
                        forall|j: int|
                            0 <= j < old(self).nodes@.len() ==> {
                                let m = mid2.nodes@[j];
                                let b = #[trigger] self.nodes@[j];
                                &&& b == Node {
                                    cell: LazyImmutable {
                                        next_subscribers: b.cell.next_subscribers,
                                        ..m.cell
                                    },
                                    ..m
                                }
                                &&& forall|x: Entity|
                                    b.cell.next_subscribers.has(x)
                                        <==> (m.cell.next_subscribers.has(x)
                                            || (x == caller && trigs@.subrange(0, t as int).contains(
                                                Entity { id: j as usize },
                                            )))
                            },
                        self.res == old(self).res,
                        self.to_send == old(self).to_send,
                        self.to_trigger == old(self).to_trigger,
                        self.processed == old(self).processed,
                        self.in_flight == old(self).in_flight,
                    decreases trigs@.len() - t,
                {
                    let s = trigs[t];
                    self.stage_sub(s, caller);
                    proof {
                        assert forall|j: int, x: Entity| 0 <= j < old(self).nodes@.len() implies
                            ((#[trigger] self.nodes@[j].cell.next_subscribers.has(x))
                                <==> (mid2.nodes@[j].cell.next_subscribers.has(x)
                                    || (x == caller && trigs@.subrange(0, t + 1 as int).contains(
                                        Entity { id: j as usize },
                                    )))) by {
                            lemma_subrange_step(trigs@, t as int, Entity { id: j as usize });
                        }
                    }
                    t += 1;
                }
                assert(trigs@.subrange(0, trigs@.len() as int) =~= trigs@);
                let n = &mut self.nodes[k];
                n.rebuild = false;
                assert forall|j: int, x: Entity| 0 <= j < old(self).nodes@.len() implies
                    ((#[trigger] self.nodes@[j].cell.next_subscribers.has(x))
                        <==> (old(self).nodes@[j].cell.next_subscribers.has(x)
                            || (x.id < k + 1 && Self::rebuild_wants(
                                *old(self),
                                x,
                                Entity { id: j as usize },
                            )))) by {
                    let ej = Entity { id: j as usize };
                    if x == caller {
                        assert((srcs@.contains(ej) || trigs@.contains(ej))
                            == Self::subscribes_to(old(self).node(x), ej));
                    }
                }
            }
            k += 1;
        }
        // commit every cell's staged subscribers
        let ghost mid3 = *self;
        let mut i: usize = 0;
        while i < n_nodes
            invariant
                i <= n_nodes,
                n_nodes == old(self).nodes@.len(),
                self.nodes@.len() == old(self).nodes@.len(),
                forall|j: int|
                    i <= j < old(self).nodes@.len() ==> #[trigger] self.nodes@[j] == mid3.nodes@[j],
                forall|j: int|
                    0 <= j < i ==> {
                        let m = mid3.nodes@[j];
                        let b = #[trigger] self.nodes@[j];
                        &&& b == Node {
                            cell: LazyImmutable {
                                subscribers: b.cell.subscribers,
                                next_subscribers: b.cell.next_subscribers,
                                ..m.cell
                            },
                            ..m
                        }
                        &&& b.cell.next_subscribers.is_empty_spec()
                        &&& forall|x: Entity|
                            b.cell.subscribers.has(x)
                                <==> (m.cell.subscribers.has(x) || m.cell.next_subscribers.has(x))
                    },
                self.res == old(self).res,
                self.to_send == old(self).to_send,
                self.to_trigger == old(self).to_trigger,
                self.processed == old(self).processed,
                self.in_flight == old(self).in_flight,
            decreases n_nodes - i,
        {
            let n = &mut self.nodes[i];
            n.cell.merge_subscribers();
            i += 1;
        }
    }

    /// The cell of `e` carries a staged write or trigger whose merge will
    /// commit a different value.
    pub open spec fn staged_merges(pre: Self, e: Entity) -> bool {
        pre.valid(e) && (pre.to_send.has(e) || pre.to_trigger.has(e))
            && pre.node(e).cell.merge_changes()
    }

    /// The cell of `e` is explicitly triggered: its subscribers are
    /// notified even if the committed value does not change.
    pub open spec fn trigger_notifies(pre: Self, e: Entity) -> bool {
        pre.valid(e) && pre.to_trigger.has(e)
    }

    /// `e` notifies its subscribers during the external-write phase:
    /// either its merge commits a new value, or it is explicitly
    /// triggered.
    pub open spec fn write_notifies(pre: Self, e: Entity) -> bool {
        pre.valid(e)
            && ((pre.to_send.has(e) && pre.node(e).cell.merge_changes()) || pre.to_trigger.has(e))
    }

    /// What the external-write phase guarantees. Every staged cell is
    /// merged: its pending value is cleared, and exactly when the pending
    /// value differed the committed value moves, the cell lands in
    /// `changed`, its live subscribers land in `dirty` and are cleared.
    /// A triggered cell lands in `triggered` and notifies its subscribers
    /// even without a change. Nothing else moves.
    pub open spec fn send_signals_post(pre: Self, post: Self) -> bool {
        &&& post.nodes@.len() == pre.nodes@.len()
        &&& forall|j: int|
            0 <= j < pre.nodes@.len() ==> {
                let a = pre.nodes@[j];
                let b = #[trigger] post.nodes@[j];
                let ej = Entity { id: j as usize };
                &&& b.kind == a.kind
                &&& b.sources == a.sources
                &&& b.triggers == a.triggers
                &&& b.running == a.running
                &&& b.rebuild == a.rebuild
                &&& b.cell.next_subscribers == a.cell.next_subscribers
                &&& b.cell.data == (if Self::staged_merges(pre, ej) {
                    a.cell.merged_data()
                } else {
                    a.cell.data
                })
                &&& b.cell.next_value == (if pre.to_send.has(ej) || pre.to_trigger.has(ej) {
                    Option::<Value>::None
                } else {
                    a.cell.next_value
                })
                &&& (if Self::staged_merges(pre, ej) {
                    b.cell.subscribers.is_empty_spec()
                } else {
                    b.cell.subscribers == a.cell.subscribers
                })
            }
        &&& forall|x: Entity|
            #[trigger] post.res.changed.has(x)
                <==> (pre.res.changed.has(x) || Self::staged_merges(pre, x))
        &&& forall|x: Entity|
            #[trigger] post.res.triggered.has(x)
                <==> (pre.res.triggered.has(x) || Self::trigger_notifies(pre, x))
        &&& forall|x: Entity|
            #[trigger] post.res.dirty.has(x)
                <==> (pre.res.dirty.has(x) || exists|e: Entity|
                    Self::write_notifies(pre, e)
                        && #[trigger] pre.node(e).cell.subscribers.has(x))
        &&& post.res.errors == pre.res.errors
        &&& post.to_send.is_empty_spec()
        &&& post.to_trigger.is_empty_spec()
        &&& post.processed == pre.processed
        &&& post.in_flight == pre.in_flight
    }

    /// External-write phase: merges every cell with a staged write or
    /// trigger, collecting the changed cells, the notified subscribers,
    /// and the triggered cells into the tick bookkeeping.
    #[verifier::rlimit(100)]
    pub fn send_signals(&mut self)
        ensures
            Self::send_signals_post(*old(self), *final(self)),
    {
        let n_nodes = self.nodes.len();
        let n_sends = self.to_send.len();
        let mut t: usize = 0;
        while t < n_sends
            invariant
                t <= n_sends,
                n_sends == old(self).to_send.items@.len(),
                self.nodes@.len() == old(self).nodes@.len(),
                forall|j: int|
                    0 <= j < old(self).nodes@.len() ==> {
                        let a = old(self).nodes@[j];
                        let b = #[trigger] self.nodes@[j];
                        let ej = Entity { id: j as usize };
                        let done = old(self).to_send.items@.subrange(0, t as int).contains(ej);
                        &&& b.kind == a.kind
                        &&& b.sources == a.sources
                        &&& b.triggers == a.triggers
                        &&& b.running == a.running
                        &&& b.rebuild == a.rebuild
                        &&& b.cell.next_subscribers == a.cell.next_subscribers
                        &&& b.cell.data == (if done && a.cell.merge_changes() {
                            a.cell.merged_data()
                        } else {
                            a.cell.data
                        })
                        &&& b.cell.next_value == (if done {
                            Option::<Value>::None
                        } else {
                            a.cell.next_value
                        })
                        &&& (if done && a.cell.merge_changes() {
                            b.cell.subscribers.is_empty_spec()
                        } else {
                            b.cell.subscribers == a.cell.subscribers
                        })
                    },
                forall|x: Entity|
                    #[trigger] self.res.changed.has(x)
                        <==> (old(self).res.changed.has(x)
                            || (old(self).to_send.items@.subrange(0, t as int).contains(x)
                                && old(self).valid(x) && old(self).node(x).cell.merge_changes())),
                forall|x: Entity|
                    #[trigger] self.res.dirty.has(x)
                        <==> (old(self).res.dirty.has(x) || exists|e2: Entity|
                            old(self).to_send.items@.subrange(0, t as int).contains(e2)
                                && old(self).valid(e2) && old(self).node(e2).cell.merge_changes()
                                && #[trigger] old(self).node(e2).cell.subscribers.has(x)),
                self.res.triggered == old(self).res.triggered,
                self.res.errors == old(self).res.errors,
                self.to_send == old(self).to_send,
                self.to_trigger == old(self).to_trigger,
                self.processed == old(self).processed,
                self.in_flight == old(self).in_flight,
            decreases n_sends - t,
        {
            let e = self.to_send.get(t);
            proof {
                assert forall|e2: Entity|
                    old(self).to_send.items@.subrange(0, t + 1 as int).contains(e2)
                        <==> (old(self).to_send.items@.subrange(0, t as int).contains(e2)
                            || e2 == e) by {
                    lemma_subrange_step(old(self).to_send.items@, t as int, e2);
                }
            }
            let ghost dirty0 = self.res.dirty;
            if e.id < self.nodes.len() {
                let ghost midnode = self.nodes@[e.id as int];
                let n = &mut self.nodes[e.id];
                let will = n.cell.has_pending_change();
                let subs = n.cell.merge();
                if will {
                    self.res.changed.insert(e);
                    self.res.dirty.insert_all(&subs);
                }
                proof {
                    let s0 = old(self).to_send.items@.subrange(0, t as int);
                    let s1 = old(self).to_send.items@.subrange(0, t + 1 as int);
                    assert forall|x: Entity|
                        #[trigger] self.res.dirty.has(x)
                            <==> (old(self).res.dirty.has(x) || exists|e2: Entity|
                                s1.contains(e2) && old(self).valid(e2)
                                    && old(self).node(e2).cell.merge_changes()
                                    && #[trigger] old(self).node(e2).cell.subscribers.has(x)) by {
                        if dirty0.has(x) {
                            assert(self.res.dirty.has(x));
                            if !old(self).res.dirty.has(x) {
                                let w = choose|e2: Entity|
                                    s0.contains(e2) && old(self).valid(e2)
                                        && old(self).node(e2).cell.merge_changes()
                                        && #[trigger] old(self).node(e2).cell.subscribers.has(x);
                                assert(s1.contains(w));
                                assert(old(self).node(w).cell.subscribers.has(x));
                            }
                        } else {
                            if self.res.dirty.has(x) {
                                // added this iteration: the merge of `e` committed
                                assert(will && subs.has(x));
                                assert(!s0.contains(e));
                                assert(midnode.cell.subscribers.has(x));
                                assert(s1.contains(e));
                                assert(old(self).node(e).cell.subscribers.has(x));
                            }
                            if exists|e2: Entity|
                                s1.contains(e2) && old(self).valid(e2)
                                    && old(self).node(e2).cell.merge_changes()
                                    && #[trigger] old(self).node(e2).cell.subscribers.has(x) {
                                let w = choose|e2: Entity|
                                    s1.contains(e2) && old(self).valid(e2)
                                        && old(self).node(e2).cell.merge_changes()
                                        && #[trigger] old(self).node(e2).cell.subscribers.has(x);
                                if s0.contains(w) {
                                    assert(dirty0.has(x));
                                } else {
                                    assert(w == e);
                                    assert(!s0.contains(e));
                                    assert(midnode.cell == old(self).node(e).cell);
                                    assert(will);
                                    assert(subs.has(x));
                                }
                                assert(self.res.dirty.has(x));
                            }
                        }
                    }
                }
            } else {
                proof {
                    let s0 = old(self).to_send.items@.subrange(0, t as int);
                    let s1 = old(self).to_send.items@.subrange(0, t + 1 as int);
                    assert forall|x: Entity|
                        #[trigger] self.res.dirty.has(x)
                            <==> (old(self).res.dirty.has(x) || exists|e2: Entity|
                                s1.contains(e2) && old(self).valid(e2)
                                    && old(self).node(e2).cell.merge_changes()
                                    && #[trigger] old(self).node(e2).cell.subscribers.has(x)) by {
                        if dirty0.has(x) {
                            if !old(self).res.dirty.has(x) {
                                let w = choose|e2: Entity|
                                    s0.contains(e2) && old(self).valid(e2)
                                        && old(self).node(e2).cell.merge_changes()
                                        && #[trigger] old(self).node(e2).cell.subscribers.has(x);
                                assert(s1.contains(w));
                                assert(old(self).node(w).cell.subscribers.has(x));
                            }
                        } else {
                            if exists|e2: Entity|
                                s1.contains(e2) && old(self).valid(e2)
                                    && old(self).node(e2).cell.merge_changes()
                                    && #[trigger] old(self).node(e2).cell.subscribers.has(x) {
                                let w = choose|e2: Entity|
                                    s1.contains(e2) && old(self).valid(e2)
                                        && old(self).node(e2).cell.merge_changes()
                                        && #[trigger] old(self).node(e2).cell.subscribers.has(x);
                                assert(s0.contains(w));
                                assert(dirty0.has(x));
                            }
                        }
                    }
                }
            }
            t += 1;
        }
        assert(old(self).to_send.items@.subrange(0, n_sends as int) =~= old(self).to_send.items@);
        let ghost pre = *old(self);
        let n_trigs = self.to_trigger.len();
        let mut t: usize = 0;
        while t < n_trigs
            invariant
                t <= n_trigs,
                n_trigs == pre.to_trigger.items@.len(),
                self.nodes@.len() == pre.nodes@.len(),
                forall|j: int|
                    0 <= j < pre.nodes@.len() ==> {
                        let a = pre.nodes@[j];
                        let b = #[trigger] self.nodes@[j];
                        let ej = Entity { id: j as usize };
                        let done = pre.to_send.has(ej)
                            || pre.to_trigger.items@.subrange(0, t as int).contains(ej);
                        &&& b.kind == a.kind
                        &&& b.sources == a.sources
                        &&& b.triggers == a.triggers
                        &&& b.running == a.running
                        &&& b.rebuild == a.rebuild
                        &&& b.cell.next_subscribers == a.cell.next_subscribers
                        &&& b.cell.data == (if done && a.cell.merge_changes() {
                            a.cell.merged_data()
                        } else {
                            a.cell.data
                        })
                        &&& b.cell.next_value == (if done {
                            Option::<Value>::None
                        } else {
                            a.cell.next_value
                        })
                        &&& (if done && a.cell.merge_changes() {
                            b.cell.subscribers.is_empty_spec()
                        } else {
                            b.cell.subscribers == a.cell.subscribers
                        })
                    },
                forall|x: Entity|
                    #[trigger] self.res.changed.has(x)
                        <==> (pre.res.changed.has(x)
                            || ((pre.to_send.has(x)
                                || pre.to_trigger.items@.subrange(0, t as int).contains(x))
                                && pre.valid(x) && pre.node(x).cell.merge_changes())),
                forall|x: Entity|
                    #[trigger] self.res.triggered.has(x)
                        <==> (pre.res.triggered.has(x)
                            || (pre.to_trigger.items@.subrange(0, t as int).contains(x)
                                && pre.valid(x))),
                forall|x: Entity|
                    #[trigger] self.res.dirty.has(x)
                        <==> (pre.res.dirty.has(x) || exists|e2: Entity|
                            pre.valid(e2)
                                && ((pre.to_send.has(e2) && pre.node(e2).cell.merge_changes())
                                    || pre.to_trigger.items@.subrange(0, t as int).contains(e2))
                                && #[trigger] pre.node(e2).cell.subscribers.has(x)),
                self.res.errors == pre.res.errors,
                self.to_send == pre.to_send,
                self.to_trigger == pre.to_trigger,
                self.processed == pre.processed,
                self.in_flight == pre.in_flight,
            decreases n_trigs - t,
        {
            let e = self.to_trigger.get(t);
            proof {
                assert forall|e2: Entity|
                    pre.to_trigger.items@.subrange(0, t + 1 as int).contains(e2)
                        <==> (pre.to_trigger.items@.subrange(0, t as int).contains(e2)
                            || e2 == e) by {
                    lemma_subrange_step(pre.to_trigger.items@, t as int, e2);
                }
            }
            let ghost dirty0 = self.res.dirty;
            if e.id < self.nodes.len() {
                self.res.triggered.insert(e);
                let ghost midnode = self.nodes@[e.id as int];
                let n = &mut self.nodes[e.id];
                let captured = n.cell.get_subscribers();
                let will = n.cell.has_pending_change();
                let subs = n.cell.merge();
                if will {
                    self.res.changed.insert(e);
                }
                self.res.dirty.insert_all(&captured);
                proof {
                    let s0 = pre.to_trigger.items@.subrange(0, t as int);
                    let s1 = pre.to_trigger.items@.subrange(0, t + 1 as int);
                    assert forall|x: Entity|
                        #[trigger] self.res.dirty.has(x)
                            <==> (pre.res.dirty.has(x) || exists|e2: Entity|
                                pre.valid(e2)
                                    && ((pre.to_send.has(e2) && pre.node(e2).cell.merge_changes())
                                        || s1.contains(e2))
                                    && #[trigger] pre.node(e2).cell.subscribers.has(x)) by {
                        if dirty0.has(x) {
                            assert(self.res.dirty.has(x));
                            if !pre.res.dirty.has(x) {
                                let w = choose|e2: Entity|
                                    pre.valid(e2)
                                        && ((pre.to_send.has(e2) && pre.node(e2).cell.merge_changes())
                                            || s0.contains(e2))
                                        && #[trigger] pre.node(e2).cell.subscribers.has(x);
                                assert(pre.node(w).cell.subscribers.has(x));
                            }
                        } else {
                            if self.res.dirty.has(x) {
                                // added this iteration: `e` notified its live set
                                assert(captured.has(x));
                                assert(midnode.cell.subscribers.has(x));
                                assert(midnode.cell.subscribers == pre.node(e).cell.subscribers);
                                assert(s1.contains(e));
                                assert(pre.node(e).cell.subscribers.has(x));
                            }
                            if exists|e2: Entity|
                                pre.valid(e2)
                                    && ((pre.to_send.has(e2) && pre.node(e2).cell.merge_changes())
                                        || s1.contains(e2))
                                    && #[trigger] pre.node(e2).cell.subscribers.has(x) {
                                let w = choose|e2: Entity|
                                    pre.valid(e2)
                                        && ((pre.to_send.has(e2) && pre.node(e2).cell.merge_changes())
                                            || s1.contains(e2))
                                        && #[trigger] pre.node(e2).cell.subscribers.has(x);
                                if (pre.to_send.has(w) && pre.node(w).cell.merge_changes())
                                    || s0.contains(w) {
                                    assert(dirty0.has(x));
                                } else {
                                    assert(w == e);
                                    if (pre.to_send.has(e) || s0.contains(e))
                                        && pre.node(e).cell.merge_changes() {
                                        assert(dirty0.has(x));
                                    } else {
                                        assert(midnode.cell.subscribers
                                            == pre.node(e).cell.subscribers);
                                        assert(captured.has(x));
                                    }
                                }
                                assert(self.res.dirty.has(x));
                            }
                        }
                    }
                }
            } else {
                proof {
                    let s0 = pre.to_trigger.items@.subrange(0, t as int);
                    let s1 = pre.to_trigger.items@.subrange(0, t + 1 as int);
                    assert forall|x: Entity|
                        #[trigger] self.res.dirty.has(x)
                            <==> (pre.res.dirty.has(x) || exists|e2: Entity|
                                pre.valid(e2)
                                    && ((pre.to_send.has(e2) && pre.node(e2).cell.merge_changes())
                                        || s1.contains(e2))
                                    && #[trigger] pre.node(e2).cell.subscribers.has(x)) by {
                        if dirty0.has(x) {
                            if !pre.res.dirty.has(x) {
                                let w = choose|e2: Entity|
                                    pre.valid(e2)
                                        && ((pre.to_send.has(e2) && pre.node(e2).cell.merge_changes())
                                            || s0.contains(e2))
                                        && #[trigger] pre.node(e2).cell.subscribers.has(x);
                                assert(pre.node(w).cell.subscribers.has(x));
                            }
                        } else {
                            if exists|e2: Entity|
                                pre.valid(e2)
                                    && ((pre.to_send.has(e2) && pre.node(e2).cell.merge_changes())
                                        || s1.contains(e2))
                                    && #[trigger] pre.node(e2).cell.subscribers.has(x) {
                                let w = choose|e2: Entity|
                                    pre.valid(e2)
                                        && ((pre.to_send.has(e2) && pre.node(e2).cell.merge_changes())
                                            || s1.contains(e2))
                                        && #[trigger] pre.node(e2).cell.subscribers.has(x);
                                assert((pre.to_send.has(w) && pre.node(w).cell.merge_changes())
                                    || s0.contains(w));
                                assert(dirty0.has(x));
                            }
                        }
                    }
                }
            }
            t += 1;
        }
        assert(pre.to_trigger.items@.subrange(0, n_trigs as int) =~= pre.to_trigger.items@);
        proof {
            assert forall|j: int| 0 <= j < old(self).nodes@.len() implies {
                let a = old(self).nodes@[j];
                let b = #[trigger] self.nodes@[j];
                let ej = Entity { id: j as usize };
                &&& b.cell.data == (if Self::staged_merges(*old(self), ej) {
                    a.cell.merged_data()
                } else {
                    a.cell.data
                })
                &&& b.cell.next_value == (if old(self).to_send.has(ej) || old(self).to_trigger.has(
                    ej,
                ) {
                    Option::<Value>::None
                } else {
                    a.cell.next_value
                })
                &&& (if Self::staged_merges(*old(self), ej) {
                    b.cell.subscribers.is_empty_spec()
                } else {
                    b.cell.subscribers == a.cell.subscribers
                })
            } by {
                let ej = Entity { id: j as usize };
                assert(ej.id as int == j);
                assert(Self::staged_merges(*old(self), ej)
                    == ((pre.to_send.has(ej)
                        || pre.to_trigger.items@.subrange(0, n_trigs as int).contains(ej))
                        && old(self).nodes@[j].cell.merge_changes()));
            }
        }
        proof {
            assert forall|x: Entity|
                #[trigger] self.res.dirty.has(x)
                    <==> (old(self).res.dirty.has(x) || exists|e: Entity|
                        Self::write_notifies(*old(self), e)
                            && #[trigger] old(self).node(e).cell.subscribers.has(x)) by {
                if self.res.dirty.has(x) {
                    if !old(self).res.dirty.has(x) {
                        let w = choose|e2: Entity|
                            pre.valid(e2)
                                && ((pre.to_send.has(e2) && pre.node(e2).cell.merge_changes())
                                    || pre.to_trigger.items@.subrange(0, n_trigs as int).contains(
                                        e2,
                                    ))
                                && #[trigger] pre.node(e2).cell.subscribers.has(x);
                        assert(Self::write_notifies(*old(self), w));
                        assert(old(self).node(w).cell.subscribers.has(x));
                    }
                } else {
                    if exists|e: Entity|
                        Self::write_notifies(*old(self), e)
                            && #[trigger] old(self).node(e).cell.subscribers.has(x) {
                        let w = choose|e: Entity|
                            Self::write_notifies(*old(self), e)
                                && #[trigger] old(self).node(e).cell.subscribers.has(x);
                        assert(pre.valid(w)
                            && ((pre.to_send.has(w) && pre.node(w).cell.merge_changes())
                                || pre.to_trigger.items@.subrange(0, n_trigs as int).contains(w))
                            && pre.node(w).cell.subscribers.has(x));
                        assert(self.res.dirty.has(x));
                    }
                }
            }
        }
        self.to_send.clear();
        self.to_trigger.clear();
    }

    /// What taking a compute request guarantees. A returned entity is a
    /// computed node that was notified this tick and not yet evaluated;
    /// it is marked processed at once, so no sequence of requests can
    /// yield the same node twice in one tick. `None` means the wave is
    /// exhausted: every notified computed node has been processed.
    pub open spec fn take_post(pre: Self, post: Self, r: Option<Entity>) -> bool {
        match r {
            Some(e) => {
                &&& pre.valid(e)
                &&& pre.node(e).kind == NodeKind::Computed
                &&& pre.res.dirty.has(e)
                &&& !pre.processed.has(e)
                &&& post.nodes == pre.nodes
                &&& post.res == pre.res
                &&& post.to_send == pre.to_send
                &&& post.to_trigger == pre.to_trigger
                &&& forall|x: Entity|
                    #[trigger] post.processed.has(x) <==> (pre.processed.has(x) || x == e)
                &&& post.in_flight == Some(e)
            },
            None => {
                &&& post == pre
                &&& forall|e: Entity|
                    pre.valid(e) && pre.node(e).kind == NodeKind::Computed
                        && #[trigger] pre.res.dirty.has(e) ==> pre.processed.has(e)
            },
        }
    }

    /// Picks the next computed node to evaluate this tick: one notified
    /// by the wave (`dirty`) and not yet processed. The host materializes
    /// its arguments, runs its derivation function, and answers through
    /// `apply_compute_result`; the wave continues until this returns
    /// `None`.
    pub fn take_compute_request(&mut self) -> (r: Option<Entity>)
        requires
            old(self).in_flight is None,
        ensures
            Self::take_post(*old(self), *final(self), r),
    {
        let mut i: usize = 0;
        let n_nodes = self.nodes.len();
        while i < n_nodes
            invariant
                i <= n_nodes,
                n_nodes == self.nodes@.len(),
                *self == *old(self),
                forall|j: int|
                    0 <= j < i ==> !((#[trigger] self.nodes@[j]).kind == NodeKind::Computed
                        && self.res.dirty.has(Entity { id: j as usize })
                        && !self.processed.has(Entity { id: j as usize })),
            decreases n_nodes - i,
        {
            let e = Entity { id: i };
            let is_computed = match self.nodes[i].kind {
                NodeKind::Computed => true,
                _ => false,
            };
            if is_computed && self.res.dirty.contains(e) && !self.processed.contains(e) {
                self.processed.insert(e);
                self.in_flight = Some(e);
                return Some(e);
            }
            i += 1;
        }
        proof {
            assert forall|e: Entity|
                self.valid(e) && self.node(e).kind == NodeKind::Computed
                    && #[trigger] self.res.dirty.has(e) implies self.processed.has(e) by {
                assert(e == Entity { id: e.id as usize });
            }
        }
        None
    }

    /// What argument materialization guarantees: one positional slot per
    /// declared source, holding the source's committed value, or the
    /// absent marker where the handle does not resolve; the reading node
    /// is staged as a subscriber of every resolving source, so it is
    /// re-subscribed for the following ticks.
    pub open spec fn materialize_post(pre: Self, post: Self, e: Entity, args: Seq<Option<Value>>) -> bool {
        &&& args.len() == pre.node(e).sources@.len()
        &&& forall|k: int|
            0 <= k < args.len() ==> args[k] == (if pre.valid(#[trigger] pre.node(e).sources@[k]) {
                Some(pre.node(pre.node(e).sources@[k]).cell.data)
            } else {
                Option::<Value>::None
            })
        &&& post.nodes@.len() == pre.nodes@.len()
        &&& forall|j: int|
            0 <= j < pre.nodes@.len() ==> {
                let a = pre.nodes@[j];
                let b = #[trigger] post.nodes@[j];
                &&& b == Node {
                    cell: LazyImmutable { next_subscribers: b.cell.next_subscribers, ..a.cell },
                    ..a
                }
                &&& forall|x: Entity|
                    b.cell.next_subscribers.has(x)
                        <==> (a.cell.next_subscribers.has(x)
                            || (x == e && pre.node(e).sources@.contains(Entity { id: j as usize })))
            }
        &&& post.res == pre.res
        &&& post.to_send == pre.to_send
        &&& post.to_trigger == pre.to_trigger
        &&& post.processed == pre.processed
        &&& post.in_flight == pre.in_flight
    }

    /// Builds the positional snapshot of the sources of `e`, reading each
    /// source through the subscribing path.
    pub fn materialize_args(&mut self, e: Entity) -> (args: Vec<Option<Value>>)
        requires
            old(self).valid(e),
        ensures
            Self::materialize_post(*old(self), *final(self), e, args@),
    {
        let srcs = copy_entities(&self.nodes[e.id].sources);
        let mut args: Vec<Option<Value>> = Vec::new();
        let mut k: usize = 0;
        while k < srcs.len()
            invariant
                k <= srcs@.len(),
                srcs@ == old(self).nodes@[e.id as int].sources@,
                e.id < old(self).nodes@.len(),
                self.nodes@.len() == old(self).nodes@.len(),
                args@.len() == k,
                forall|m: int|
                    0 <= m < k ==> args@[m] == (if old(self).valid(#[trigger] srcs@[m]) {
                        Some(old(self).node(srcs@[m]).cell.data)
                    } else {
                        Option::<Value>::None
                    }),
                forall|j: int|
                    0 <= j < old(self).nodes@.len() ==> {
                        let a = old(self).nodes@[j];
                        let b = #[trigger] self.nodes@[j];
                        &&& b == Node {
                            cell: LazyImmutable {
                                next_subscribers: b.cell.next_subscribers,
                                ..a.cell
                            },
                            ..a
                        }
                        &&& forall|x: Entity|
                            b.cell.next_subscribers.has(x)
                                <==> (a.cell.next_subscribers.has(x)
                                    || (x == e && srcs@.subrange(0, k as int).contains(
                                        Entity { id: j as usize },
                                    )))
                    },
                self.res == old(self).res,
                self.to_send == old(self).to_send,
                self.to_trigger == old(self).to_trigger,
                self.processed == old(self).processed,
                self.in_flight == old(self).in_flight,
            decreases srcs@.len() - k,
        {
            let s = srcs[k];
            if s.id < self.nodes.len() {
                let n = &mut self.nodes[s.id];
                n.cell.subscribe(e);
                let v = n.cell.read();
                args.push(Some(v));
            } else {
                args.push(None);
            }
            proof {
                assert forall|j: int, x: Entity| 0 <= j < old(self).nodes@.len() implies
                    ((#[trigger] self.nodes@[j].cell.next_subscribers.has(x))
                        <==> (old(self).nodes@[j].cell.next_subscribers.has(x)
                            || (x == e && srcs@.subrange(0, k + 1 as int).contains(
                                Entity { id: j as usize },
                            )))) by {
                    lemma_subrange_step(srcs@, k as int, Entity { id: j as usize });
                }
            }
            k += 1;
        }
        assert(srcs@.subrange(0, srcs@.len() as int) =~= srcs@);
        args
    }

    /// What applying a derivation result guarantees. `None` leaves the
    /// value and the wave untouched (not yet available). An `Ok` value
    /// is merged: exactly when it differs from the prior value under
    /// `veq`, it is committed, the node lands in `changed`, and its live
    /// subscribers join the wave (`dirty`) and are cleared; an equal
    /// value propagates nothing — glitch suppression. An `Err` is stored
    /// the same way, as the value `Value::Error`, and is also recorded
    /// in the tick's error list: an error is a legitimate observable
    /// value.
    pub open spec fn apply_post(pre: Self, post: Self, e: Entity, result: Option<Result<Value, String>>) -> bool {
        match result {
            None => {
                &&& post.nodes == pre.nodes
                &&& post.res == pre.res
                &&& post.to_send == pre.to_send
                &&& post.to_trigger == pre.to_trigger
                &&& post.processed == pre.processed
                &&& post.in_flight is None
            },
            Some(r0) => {
                let stored = match r0 {
                    Ok(v) => v,
                    Err(m) => Value::Error(m),
                };
                let changes = !veq(stored, pre.node(e).cell.data);
                &&& post.nodes@.len() == pre.nodes@.len()
                &&& forall|j: int|
                    0 <= j < pre.nodes@.len() && j != e.id ==> post.nodes@[j] == pre.nodes@[j]
                &&& {
                    let a = pre.node(e);
                    let b = post.node(e);
                    &&& b.kind == a.kind
                    &&& b.sources == a.sources
                    &&& b.triggers == a.triggers
                    &&& b.running == a.running
                    &&& b.rebuild == a.rebuild
                    &&& b.cell.next_subscribers == a.cell.next_subscribers
                    &&& b.cell.next_value is None
                    &&& b.cell.data == (if changes {
                        stored
                    } else {
                        a.cell.data
                    })
                    &&& (if changes {
                        b.cell.subscribers.is_empty_spec()
                    } else {
                        b.cell.subscribers == a.cell.subscribers
                    })
                }
                &&& forall|x: Entity|
                    #[trigger] post.res.changed.has(x)
                        <==> (pre.res.changed.has(x) || (x == e && changes))
                &&& forall|x: Entity|
                    #[trigger] post.res.dirty.has(x)
                        <==> (pre.res.dirty.has(x) || (changes
                            && pre.node(e).cell.subscribers.has(x)))
                &&& post.res.triggered == pre.res.triggered
                &&& post.res.errors@ == (match r0 {
                    Ok(_) => pre.res.errors@,
                    Err(m) => pre.res.errors@.push(TickError { entity: e, message: m }),
                })
                &&& post.to_send == pre.to_send
                &&& post.to_trigger == pre.to_trigger
                &&& post.processed == pre.processed
                &&& post.in_flight is None
            },
        }
    }

    /// Applies the derivation result for the compute request in flight,
    /// merging the produced value into the node's cell and spreading the
    /// wave to its subscribers when the value changed.
    pub fn apply_compute_result(&mut self, e: Entity, result: Option<Result<Value, String>>)
        requires
            old(self).in_flight == Some(e),
            old(self).valid(e),
        ensures
            Self::apply_post(*old(self), *final(self), e, result),
    {
        self.in_flight = None;
        match result {
            None => {},
            Some(r0) => {
                let val = match r0 {
                    Ok(v) => v,
                    Err(m) => {
                        self.res.errors.push(TickError { entity: e, message: m.clone() });
                        Value::Error(m)
                    },
                };
                let n = &mut self.nodes[e.id];
                n.cell.merge_next(val);
                let will = n.cell.has_pending_change();
                let subs = n.cell.merge();
                if will {
                    self.res.changed.insert(e);
                    self.res.dirty.insert_all(&subs);
                }
            },
        }
    }

    /// The kind runs side effects.
    pub open spec fn is_effect_kind(k: NodeKind) -> bool {
        k == NodeKind::Effect || k == NodeKind::Task
    }

    /// The effect node `e` is due this tick: it was notified through a
    /// subscription (`dirty`), or one of its declared triggers fired; an
    /// asynchronous effect additionally must not be running already.
    pub open spec fn fires(pre: Self, e: Entity) -> bool {
        &&& pre.valid(e)
        &&& Self::is_effect_kind(pre.node(e).kind)
        &&& (pre.res.dirty.has(e) || exists|k: int|
            0 <= k < pre.node(e).triggers@.len() && pre.res.triggered.has(
                #[trigger] pre.node(e).triggers@[k],
            ))
        &&& (pre.node(e).kind == NodeKind::Task ==> !pre.node(e).running)
    }

    /// What the deferred-effects phase guarantees: the returned list
    /// holds exactly the effect nodes due this tick, each once; every
    /// returned asynchronous effect is marked running; nothing else
    /// moves. An effect fires at most once per tick no matter how many
    /// qualifying sources or triggers fired, and a task still running is
    /// not returned: its trigger is coalesced.
    pub open spec fn effects_post(pre: Self, post: Self, fired: Seq<Entity>) -> bool {
        &&& forall|e: Entity| #[trigger] fired.contains(e) <==> Self::fires(pre, e)
        &&& fired.no_duplicates()
        &&& post.nodes@.len() == pre.nodes@.len()
        &&& forall|j: int|
            0 <= j < pre.nodes@.len() ==> {
                let a = pre.nodes@[j];
                let b = #[trigger] post.nodes@[j];
                b == Node {
                    running: a.running || (Self::fires(pre, Entity { id: j as usize })
                        && a.kind == NodeKind::Task),
                    ..a
                }
            }
        &&& post.res == pre.res
        &&& post.to_send == pre.to_send
        &&& post.to_trigger == pre.to_trigger
        &&& post.processed == pre.processed
        &&& post.in_flight == pre.in_flight
    }

    /// Deferred-effects phase: collects the effect nodes due this tick
    /// for the host to execute. Synchronous effects run inline after
    /// this call with staged-write access; asynchronous effects are
    /// spawned by the host, and their `running` flag is set here so a
    /// second trigger cannot spawn a concurrent execution.
    pub fn apply_deferred_effects(&mut self) -> (fired: Vec<Entity>)
        ensures
            Self::effects_post(*old(self), *final(self), fired@),
    {
        let mut fired: Vec<Entity> = Vec::new();
        let n_nodes = self.nodes.len();
        let mut i: usize = 0;
        while i < n_nodes
            invariant
                i <= n_nodes,
                n_nodes == old(self).nodes@.len(),
                self.nodes@.len() == old(self).nodes@.len(),
                forall|e: Entity|
                    #[trigger] fired@.contains(e) <==> (Self::fires(*old(self), e) && e.id < i),
                forall|a: int, b: int| 0 <= a < b < fired@.len() ==> fired@[a].id < fired@[b].id,
                forall|m: int| 0 <= m < fired@.len() ==> #[trigger] fired@[m].id < i,
                forall|j: int|
                    0 <= j < old(self).nodes@.len() ==> {
                        let a = old(self).nodes@[j];
                        let b = #[trigger] self.nodes@[j];
                        b == Node {
                            running: a.running || (j < i
                                && Self::fires(*old(self), Entity { id: j as usize })
                                && a.kind == NodeKind::Task),
                            ..a
                        }
                    },
                self.res == old(self).res,
                self.to_send == old(self).to_send,
                self.to_trigger == old(self).to_trigger,
                self.processed == old(self).processed,
                self.in_flight == old(self).in_flight,
            decreases n_nodes - i,
        {
            let e = Entity { id: i };
            let kind = self.nodes[i].kind;
            let is_effect = match kind {
                NodeKind::Effect => true,
                NodeKind::Task => true,
                _ => false,
            };
            if is_effect {
                let notified = self.res.dirty.contains(e);
                let was_triggered = self.res.triggered.intersects(&self.nodes[i].triggers);
                let idle = match kind {
                    NodeKind::Task => !self.nodes[i].running,
                    _ => true,
                };
                if (notified || was_triggered) && idle {
                    let is_task = match kind {
                        NodeKind::Task => true,
                        _ => false,
                    };
                    if is_task {
                        let n = &mut self.nodes[i];
                        n.running = true;
                    }
                    let ghost fired0 = fired@;
                    fired.push(e);
                    proof {
                        assert forall|x: Entity|
                            #[trigger] fired@.contains(x)
                                <==> (Self::fires(*old(self), x) && x.id < i + 1) by {
                            if fired0.contains(x) {
                                let m = choose|m: int| 0 <= m < fired0.len() && fired0[m] == x;
                                assert(fired@[m] == x);
                            }
                            if fired@.contains(x) {
                                let m = choose|m: int| 0 <= m < fired@.len() && fired@[m] == x;
                                if m < fired0.len() {
                                    assert(fired0[m] == x);
                                } else {
                                    assert(x == e);
                                }
                            }
                            if Self::fires(*old(self), x) && x.id < i + 1 && x.id >= i {
                                assert(x == e);
                                assert(fired@[fired@.len() - 1] == e);
                            }
                        }
                    }
                }
            }
            proof {
                assert forall|x: Entity|
                    #[trigger] fired@.contains(x)
                        <==> (Self::fires(*old(self), x) && x.id < i + 1) by {
                    if Self::fires(*old(self), x) && x.id == i {
                        assert(x == e);
                    }
                }
            }
            i += 1;
        }
        proof {
            assert forall|a: int, b: int|
                0 <= a < b < fired@.len() implies fired@[a] != fired@[b] by {
                assert(fired@[a].id < fired@[b].id);
            }
            assert(fired@.no_duplicates());
            assert forall|e: Entity|
                #[trigger] fired@.contains(e) <==> Self::fires(*old(self), e) by {
                if Self::fires(*old(self), e) {
                    assert(e.id < n_nodes);
                }
            }
        }
        fired
    }

    /// The computed nodes of the store that have been processed this
    /// tick: the wave's progress.
    pub open spec fn wave_done(s: Self) -> Set<Entity> {
        Set::new(|e: Entity| e.id < s.nodes@.len() && s.processed.has(e))
    }

    /// Computed-wave phase, driven to completion: repeatedly takes the
    /// next compute request, materializes its arguments, runs the
    /// supplied derivation dispatcher, and applies the result, until no
    /// notified computed node is left. The dispatcher is arbitrary user
    /// code; whatever it returns, the engine keeps the wave discipline:
    /// each computed node runs at most once per tick, the graph's
    /// topology and flags survive, the bookkeeping only grows, and on
    /// return every notified computed node has been processed.
    pub fn compute_memos<F: Fn(Entity, Vec<Option<Value>>) -> Option<Result<Value, String>>>(
        &mut self,
        derive: F,
    )
        requires
            old(self).in_flight is None,
            forall|args: (Entity, Vec<Option<Value>>)| #[trigger] call_requires(derive, args),
        ensures
            final(self).in_flight is None,
            final(self).nodes@.len() == old(self).nodes@.len(),
            forall|e: Entity|
                final(self).valid(e) && final(self).node(e).kind == NodeKind::Computed
                    && #[trigger] final(self).res.dirty.has(e) ==> final(self).processed.has(e),
            forall|j: int|
                0 <= j < old(self).nodes@.len() ==> {
                    let a = old(self).nodes@[j];
                    let b = #[trigger] final(self).nodes@[j];
                    &&& b.kind == a.kind
                    &&& b.sources == a.sources
                    &&& b.triggers == a.triggers
                    &&& b.running == a.running
                    &&& b.rebuild == a.rebuild
                },
            final(self).to_send == old(self).to_send,
            final(self).to_trigger == old(self).to_trigger,
            final(self).res.triggered == old(self).res.triggered,
            forall|x: Entity|
                #[trigger] old(self).res.changed.has(x) ==> final(self).res.changed.has(x),
            forall|x: Entity|
                #[trigger] old(self).res.dirty.has(x) ==> final(self).res.dirty.has(x),
            forall|x: Entity|
                #[trigger] old(self).processed.has(x) ==> final(self).processed.has(x),
    {
        let n_exec = self.nodes.len();
        let ghost n = n_exec as nat;
        proof {
            lemma_entity_universe_len(n);
            lemma_len_subset(Self::wave_done(*self), entity_universe(n));
        }
        let mut request = self.take_compute_request();
        proof {
            lemma_len_subset(Self::wave_done(*self), entity_universe(n));
        }
        while request.is_some()
            invariant
                n == old(self).nodes@.len(),
                n <= usize::MAX,
                self.nodes@.len() == n,
                Self::wave_done(*self).finite(),
                Self::wave_done(*self).len() <= n,
                (match request {
                    Some(e) => {
                        &&& self.in_flight == Some(e)
                        &&& e.id < n
                        &&& self.node(e).kind == NodeKind::Computed
                    },
                    None => self.in_flight is None,
                }),
                request is None ==> forall|e: Entity|
                    self.valid(e) && self.node(e).kind == NodeKind::Computed
                        && #[trigger] self.res.dirty.has(e) ==> self.processed.has(e),
                forall|args: (Entity, Vec<Option<Value>>)| #[trigger] call_requires(derive, args),
                forall|j: int|
                    0 <= j < old(self).nodes@.len() ==> {
                        let a = old(self).nodes@[j];
                        let b = #[trigger] self.nodes@[j];
                        &&& b.kind == a.kind
                        &&& b.sources == a.sources
                        &&& b.triggers == a.triggers
                        &&& b.running == a.running
                        &&& b.rebuild == a.rebuild
                    },
                self.to_send == old(self).to_send,
                self.to_trigger == old(self).to_trigger,
                self.res.triggered == old(self).res.triggered,
                forall|x: Entity|
                    #[trigger] old(self).res.changed.has(x) ==> self.res.changed.has(x),
                forall|x: Entity|
                    #[trigger] old(self).res.dirty.has(x) ==> self.res.dirty.has(x),
                forall|x: Entity|
                    #[trigger] old(self).processed.has(x) ==> self.processed.has(x),
            decreases
                n - Self::wave_done(*self).len(),
                (if request is Some { 1int } else { 0int }),
        {
            let e = request.unwrap();
            let args = self.materialize_args(e);
            let result = derive(e, args);
            self.apply_compute_result(e, result);
            let ghost before_take = *self;
            request = self.take_compute_request();
            proof {
                lemma_entity_universe_len(n);
                lemma_len_subset(Self::wave_done(before_take), entity_universe(n));
                lemma_len_subset(Self::wave_done(*self), entity_universe(n));
                broadcast use vstd::set::group_set_axioms;

                match request {
                    Some(e2) => {
                        assert(Self::wave_done(*self)
                            =~= Self::wave_done(before_take).insert(e2));
                        assert(!Self::wave_done(before_take).contains(e2));
                    },
                    None => {
                        assert(Self::wave_done(*self) =~= Self::wave_done(before_take));
                    },
                }
            }
        }
    }
}

} // verus!
