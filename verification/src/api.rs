//! The node store, per-tick bookkeeping, and the public signal API:
//! creating nodes and staging reads and writes.

use vstd::prelude::*;

use crate::signals::{Entity, EntitySet, LazyImmutable, SignalsError, Value, empty_set};

verus! {

/// A convenience terminal result for a derivation or effect body that
/// completed without producing a new value.
pub fn end_effect() -> (r: Option<Result<Value, String>>)
    ensures
        r == Some(Result::<Value, String>::Ok(Value::Unit)),
{
    Some(Ok(Value::Unit))
}

/// Gets a positional field from a materialized argument snapshot; an
/// absent position or an out-of-range index gives `None`.
pub fn get_field<'a>(args: &'a Vec<Option<Value>>, index: usize) -> (r: Option<&'a Value>)
    ensures
        (r is Some) == (index < args@.len() && args@[index as int] is Some),
        r matches Some(v) ==> Some(*v) == args@[index as int],
{
    if index < args.len() {
        match &args[index] {
            Some(v) => Some(v),
            None => None,
        }
    } else {
        None
    }
}

/// The kind of a node in the reactive graph. A `Signal` is an externally
/// writable cell; a `Computed` is a cell recomputed from its sources; an
/// `Effect` is a side-effect endpoint; a `Task` is the asynchronous
/// effect variant with at-most-one-concurrent-execution semantics.
#[derive(Clone, Copy, PartialEq, Eq, Structural, Debug)]
pub enum NodeKind {
    Signal,
    Computed,
    Effect,
    Task,
}

/// One node of the graph: its kind, its observable cell, the ordered
/// source and trigger handle lists, the long-lived `running` flag for
/// tasks, and the `rebuild` flag that marks a freshly created node whose
/// source list must be subscribed before the next propagation phase.
pub struct Node {
    pub kind: NodeKind,
    pub cell: LazyImmutable,
    pub sources: Vec<Entity>,
    pub triggers: Vec<Entity>,
    pub running: bool,
    pub rebuild: bool,
}

/// A failure recorded during a tick: the node it arose at and a message.
pub struct TickError {
    pub entity: Entity,
    pub message: String,
}

/// Per-tick shared bookkeeping, reset at the start of each tick:
/// `changed` holds the cells whose committed value actually differed
/// after merge, `dirty` the consumers notified by those merges (the
/// recompute candidates), `triggered` the cells explicitly triggered
/// regardless of value change, and `errors` the failures accumulated
/// this tick.
pub struct LazySignalsResource {
    pub changed: EntitySet,
    pub dirty: EntitySet,
    pub triggered: EntitySet,
    pub errors: Vec<TickError>,
}

impl LazySignalsResource {
    /// All four sets are empty.
    pub open spec fn is_fresh(self) -> bool {
        &&& self.changed.is_empty_spec()
        &&& self.dirty.is_empty_spec()
        &&& self.triggered.is_empty_spec()
        &&& self.errors@ == Seq::<TickError>::empty()
    }

    /// Clears everything; called at the start of each tick.
    pub fn init(&mut self)
        ensures
            final(self).is_fresh(),
    {
        self.changed.clear();
        self.dirty.clear();
        self.triggered.clear();
        self.errors.clear();
    }
}

impl Default for LazySignalsResource {
    fn default() -> (r: Self)
        ensures
            r.is_fresh(),
    {
        LazySignalsResource {
            changed: empty_set(),
            dirty: empty_set(),
            triggered: empty_set(),
            errors: Vec::new(),
        }
    }
}

/// The reactive engine: the node store keyed by handle, the per-tick
/// bookkeeping resource, the staged external writes and triggers, and the
/// propagation-wave state (`processed`, `in_flight`).
pub struct LazySignals {
    pub nodes: Vec<Node>,
    pub res: LazySignalsResource,
    /// Entities with a staged external write, merged by `send_signals`.
    pub to_send: EntitySet,
    /// Entities explicitly triggered, notified even without a change.
    pub to_trigger: EntitySet,
    /// Computed nodes already evaluated this tick: each node is evaluated
    /// at most once per tick no matter how many waves reach it.
    pub processed: EntitySet,
    /// The compute request handed out and not yet answered.
    pub in_flight: Option<Entity>,
}

impl LazySignals {
    /// The handle resolves to a node.
    pub open spec fn valid(self, e: Entity) -> bool {
        e.id < self.nodes@.len()
    }

    /// The node a handle resolves to.
    pub open spec fn node(self, e: Entity) -> Node {
        self.nodes@[e.id as int]
    }

    pub open spec fn data_of(self, e: Entity) -> Value {
        self.node(e).cell.data
    }

    pub open spec fn running(self, e: Entity) -> bool {
        self.node(e).running
    }

    /// The node lists `j` among its sources or triggers.
    pub open spec fn subscribes_to(n: Node, j: Entity) -> bool {
        n.sources@.contains(j) || n.triggers@.contains(j)
    }

    pub fn new() -> (r: LazySignals)
        ensures
            r.nodes@ == Seq::<Node>::empty(),
            r.res.is_fresh(),
            r.to_send.is_empty_spec(),
            r.to_trigger.is_empty_spec(),
            r.processed.is_empty_spec(),
            r.in_flight is None,
    {
        LazySignals {
            nodes: Vec::new(),
            res: LazySignalsResource::default(),
            to_send: empty_set(),
            to_trigger: empty_set(),
            processed: empty_set(),
            in_flight: None,
        }
    }

    /// What every creation operation guarantees: one node appended, the
    /// rest of the store and all bookkeeping untouched.
    pub open spec fn spawn_post(pre: Self, post: Self, e: Entity) -> bool {
        &&& post.nodes@.len() == pre.nodes@.len() + 1
        &&& e.id == pre.nodes@.len()
        &&& forall|i: int| 0 <= i < pre.nodes@.len() ==> post.nodes@[i] == pre.nodes@[i]
        &&& post.res == pre.res
        &&& post.to_send == pre.to_send
        &&& post.to_trigger == pre.to_trigger
        &&& post.processed == pre.processed
        &&& post.in_flight == pre.in_flight
    }

    /// The freshly created node, common part: empty cell buffers, not
    /// running.
    pub open spec fn fresh_node(n: Node, kind: NodeKind, data: Value, rebuild: bool) -> bool {
        &&& n.kind == kind
        &&& n.cell.data == data
        &&& n.cell.next_value is None
        &&& n.cell.subscribers.is_empty_spec()
        &&& n.cell.next_subscribers.is_empty_spec()
        &&& n.running == false
        &&& n.rebuild == rebuild
    }

    fn spawn(&mut self, node: Node) -> (e: Entity)
        ensures
            Self::spawn_post(*old(self), *final(self), e),
            final(self).node(e) == node,
    {
        let e = Entity { id: self.nodes.len() };
        self.nodes.push(node);
        e
    }

    /// Allocates a Signal node holding `data`. A signal has no sources,
    /// so no subscription rebuild is scheduled.
    pub fn state(&mut self, data: Value) -> (e: Entity)
        ensures
            Self::spawn_post(*old(self), *final(self), e),
            Self::fresh_node(final(self).node(e), NodeKind::Signal, data, false),
            final(self).node(e).sources@ == Seq::<Entity>::empty(),
            final(self).node(e).triggers@ == Seq::<Entity>::empty(),
    {
        self.spawn(Node {
            kind: NodeKind::Signal,
            cell: LazyImmutable::new(data),
            sources: Vec::new(),
            triggers: Vec::new(),
            running: false,
            rebuild: false,
        })
    }

    /// Allocates a Computed node with an ordered source list and an
    /// initial value; schedules its initial subscription.
    pub fn computed(&mut self, sources: Vec<Entity>, initial: Value) -> (e: Entity)
        ensures
            Self::spawn_post(*old(self), *final(self), e),
            Self::fresh_node(final(self).node(e), NodeKind::Computed, initial, true),
            final(self).node(e).sources@ == sources@,
            final(self).node(e).triggers@ == Seq::<Entity>::empty(),
    {
        self.spawn(Node {
            kind: NodeKind::Computed,
            cell: LazyImmutable::new(initial),
            sources,
            triggers: Vec::new(),
            running: false,
            rebuild: true,
        })
    }

    /// Allocates an Effect node with ordered source and trigger lists;
    /// schedules its initial subscription. An effect stores no value of
    /// its own; its cell holds a unit placeholder.
    pub fn effect(&mut self, sources: Vec<Entity>, triggers: Vec<Entity>) -> (e: Entity)
        ensures
            Self::spawn_post(*old(self), *final(self), e),
            Self::fresh_node(final(self).node(e), NodeKind::Effect, Value::Unit, true),
            final(self).node(e).sources@ == sources@,
            final(self).node(e).triggers@ == triggers@,
    {
        self.spawn(Node {
            kind: NodeKind::Effect,
            cell: LazyImmutable::new(Value::Unit),
            sources,
            triggers,
            running: false,
            rebuild: true,
        })
    }

    /// Allocates an asynchronous Effect node. While its `running` flag is
    /// set, new triggers are recorded but do not spawn a second
    /// concurrent execution.
    pub fn task(&mut self, sources: Vec<Entity>, triggers: Vec<Entity>) -> (e: Entity)
        ensures
            Self::spawn_post(*old(self), *final(self), e),
            Self::fresh_node(final(self).node(e), NodeKind::Task, Value::Unit, true),
            final(self).node(e).sources@ == sources@,
            final(self).node(e).triggers@ == triggers@,
    {
        self.spawn(Node {
            kind: NodeKind::Task,
            cell: LazyImmutable::new(Value::Unit),
            sources,
            triggers,
            running: false,
            rebuild: true,
        })
    }

    /// What `send` guarantees: on a resolving handle, the value is staged
    /// on the cell and the entity is marked for the next external-write
    /// phase; nothing else moves. An absent or dangling handle is ignored.
    pub open spec fn send_post(pre: Self, post: Self, signal: Option<Entity>, data: Value) -> bool {
        match signal {
            Some(e) => if pre.valid(e) {
                &&& post.nodes@ == pre.nodes@.update(
                    e.id as int,
                    Node { cell: LazyImmutable { next_value: Some(data), ..pre.node(e).cell }, ..pre.node(e) },
                )
                &&& forall|x: Entity| post.to_send.has(x) <==> (pre.to_send.has(x) || x == e)
                &&& post.to_trigger == pre.to_trigger
                &&& post.res == pre.res
                &&& post.processed == pre.processed
                &&& post.in_flight == pre.in_flight
            } else {
                post == pre
            },
            None => post == pre,
        }
    }

    /// Stages a value write on a signal for the next tick. Staging does
    /// not commit: the committed value and the subscribers move only when
    /// `send_signals` merges the cell.
    pub fn send(&mut self, signal: Option<Entity>, data: Value)
        ensures
            Self::send_post(*old(self), *final(self), signal, data),
    {
        match signal {
            Some(e) => {
                if e.id < self.nodes.len() {
                    let n = &mut self.nodes[e.id];
                    n.cell.merge_next(data);
                    self.to_send.insert(e);
                    assert(self.nodes@ =~= old(self).nodes@.update(
                        e.id as int,
                        Node {
                            cell: LazyImmutable {
                                next_value: Some(data),
                                ..old(self).node(e).cell
                            },
                            ..old(self).node(e)
                        },
                    ));
                }
            },
            None => {},
        }
    }

    /// What `trigger` guarantees: on a resolving handle, the optional
    /// value is staged and the entity is marked triggered, to be notified
    /// even if the value does not change.
    pub open spec fn trigger_post(pre: Self, post: Self, signal: Option<Entity>, data: Option<Value>) -> bool {
        match signal {
            Some(e) => if pre.valid(e) {
                &&& post.nodes@ == pre.nodes@.update(
                    e.id as int,
                    Node {
                        cell: LazyImmutable {
                            next_value: if data is Some { data } else { pre.node(e).cell.next_value },
                            ..pre.node(e).cell
                        },
                        ..pre.node(e)
                    },
                )
                &&& forall|x: Entity| post.to_trigger.has(x) <==> (pre.to_trigger.has(x) || x == e)
                &&& post.to_send == pre.to_send
                &&& post.res == pre.res
                &&& post.processed == pre.processed
                &&& post.in_flight == pre.in_flight
            } else {
                post == pre
            },
            None => post == pre,
        }
    }

    /// Stages a value-free (or value-bearing) trigger: the cell's
    /// subscribers will be notified by the next external-write phase even
    /// if the committed value does not change.
    pub fn trigger(&mut self, signal: Option<Entity>, data: Option<Value>)
        ensures
            Self::trigger_post(*old(self), *final(self), signal, data),
    {
        match signal {
            Some(e) => {
                if e.id < self.nodes.len() {
                    let ghost pre = *self;
                    match data {
                        Some(d) => {
                            let n = &mut self.nodes[e.id];
                            n.cell.merge_next(d);
                        },
                        None => {},
                    }
                    self.to_trigger.insert(e);
                    assert(self.nodes@ =~= pre.nodes@.update(
                        e.id as int,
                        Node {
                            cell: LazyImmutable {
                                next_value: if data is Some { data } else { pre.node(e).cell.next_value },
                                ..pre.node(e).cell
                            },
                            ..pre.node(e)
                        },
                    ));
                }
            },
            None => {},
        }
    }

    /// Best-effort read of the committed value, with no subscription side
    /// effect. Fails with `NoSignalError` when no handle is given and
    /// with `ReadError` when the handle does not resolve.
    pub fn read(&self, signal: Option<Entity>) -> (r: Result<Value, SignalsError>)
        ensures
            r == (match signal {
                Some(e) => if self.valid(e) {
                    Result::<Value, SignalsError>::Ok(self.data_of(e))
                } else {
                    Result::<Value, SignalsError>::Err(SignalsError::ReadError(e))
                },
                None => Result::<Value, SignalsError>::Err(SignalsError::NoSignalError),
            }),
    {
        match signal {
            Some(e) => {
                if e.id < self.nodes.len() {
                    Ok(self.nodes[e.id].cell.read())
                } else {
                    Err(SignalsError::ReadError(e))
                }
            },
            None => Err(SignalsError::NoSignalError),
        }
    }

    /// What `value` guarantees: the read result of `read`, plus `caller`
    /// staged as a subscriber of the cell; the subscription becomes live
    /// only at the next commit of subscribers.
    pub open spec fn value_post(pre: Self, post: Self, signal: Option<Entity>, caller: Entity, r: Result<Value, SignalsError>) -> bool {
        match signal {
            Some(e) => if pre.valid(e) {
                &&& r == Result::<Value, SignalsError>::Ok(pre.data_of(e))
                &&& post.nodes@.len() == pre.nodes@.len()
                &&& forall|i: int| 0 <= i < pre.nodes@.len() && i != e.id ==> post.nodes@[i] == pre.nodes@[i]
                &&& post.node(e) == Node {
                    cell: LazyImmutable {
                        next_subscribers: post.node(e).cell.next_subscribers,
                        ..pre.node(e).cell
                    },
                    ..pre.node(e)
                }
                &&& forall|x: Entity|
                    post.node(e).cell.next_subscribers.has(x)
                        <==> (pre.node(e).cell.next_subscribers.has(x) || x == caller)
                &&& post.res == pre.res
                &&& post.to_send == pre.to_send
                &&& post.to_trigger == pre.to_trigger
                &&& post.processed == pre.processed
                &&& post.in_flight == pre.in_flight
            } else {
                &&& r == Result::<Value, SignalsError>::Err(SignalsError::ReadError(e))
                &&& post == pre
            },
            None => {
                &&& r == Result::<Value, SignalsError>::Err(SignalsError::NoSignalError)
                &&& post == pre
            },
        }
    }

    /// Reads the committed value and registers `caller` into the cell's
    /// staged subscriber set, pending commit.
    pub fn value(&mut self, signal: Option<Entity>, caller: Entity) -> (r: Result<Value, SignalsError>)
        ensures
            Self::value_post(*old(self), *final(self), signal, caller, r),
    {
        match signal {
            Some(e) => {
                if e.id < self.nodes.len() {
                    let n = &mut self.nodes[e.id];
                    Ok(n.cell.value(caller))
                } else {
                    Err(SignalsError::ReadError(e))
                }
            },
            None => Err(SignalsError::NoSignalError),
        }
    }

    /// Subscribes `entity` to `source` and commits the source's staged
    /// subscribers at once, so a freshly wired node receives the next
    /// change even though it has not yet performed a read. A dangling
    /// source handle is ignored.
    pub fn subscribe(&mut self, entity: Entity, source: Entity)
        ensures
            final(self).nodes@.len() == old(self).nodes@.len(),
            forall|i: int|
                0 <= i < old(self).nodes@.len() && i != source.id ==> final(self).nodes@[i] == old(self).nodes@[i],
            old(self).valid(source) ==> {
                &&& final(self).node(source) == Node {
                    cell: LazyImmutable {
                        subscribers: final(self).node(source).cell.subscribers,
                        next_subscribers: final(self).node(source).cell.next_subscribers,
                        ..old(self).node(source).cell
                    },
                    ..old(self).node(source)
                }
                &&& forall|x: Entity|
                    final(self).node(source).cell.subscribers.has(x)
                        <==> (old(self).node(source).cell.subscribers.has(x)
                            || old(self).node(source).cell.next_subscribers.has(x)
                            || x == entity)
                &&& final(self).node(source).cell.next_subscribers.is_empty_spec()
            },
            !old(self).valid(source) ==> final(self).nodes@ == old(self).nodes@,
            final(self).res == old(self).res,
            final(self).to_send == old(self).to_send,
            final(self).to_trigger == old(self).to_trigger,
            final(self).processed == old(self).processed,
            final(self).in_flight == old(self).in_flight,
    {
        if source.id < self.nodes.len() {
            let n = &mut self.nodes[source.id];
            n.cell.subscribe(entity);
            n.cell.merge_subscribers();
        }
    }
}

} // verus!
