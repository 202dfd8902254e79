//! The observable cell and its building blocks: node handles, dynamically
//! typed values, subscriber sets, and the double-buffered lazy cell.

use vstd::prelude::*;

verus! {

/// Stable, opaque handle to a node in the reactive graph. All graph
/// relationships are expressed through handles, never through references,
/// so the topology stays uniform while the stored value types vary.
#[derive(Clone, Copy, PartialEq, Eq, Structural, Debug, Hash)]
pub struct Entity {
    pub id: usize,
}

/// A value stored in a reactive cell. The propagation pipeline never
/// branches on the variant: it only moves values and compares them for
/// equality, so cells of different value types flow through one generic
/// code path. A derivation failure is stored as `Value::Error`, a
/// legitimate observable value that downstream consumers can branch on.
#[derive(Debug, Clone, PartialEq)]
pub enum Value {
    Unit,
    Bool(bool),
    Int(u32),
    Str(String),
    Error(String),
}

/// Equality of cell values, the glitch-suppression relation: a merge that
/// produces a `veq`-equal value halts propagation. Strings compare by
/// their character sequences.
pub open spec fn veq(a: Value, b: Value) -> bool {
    match (a, b) {
        (Value::Unit, Value::Unit) => true,
        (Value::Bool(x), Value::Bool(y)) => x == y,
        (Value::Int(x), Value::Int(y)) => x == y,
        (Value::Str(x), Value::Str(y)) => x@ == y@,
        (Value::Error(x), Value::Error(y)) => x@ == y@,
        _ => false,
    }
}

impl Value {
    /// Decides `veq` on concrete values.
    pub fn equals(&self, other: &Value) -> (r: bool)
        ensures
            r == veq(*self, *other),
    {
        match (self, other) {
            (Value::Unit, Value::Unit) => true,
            (Value::Bool(x), Value::Bool(y)) => *x == *y,
            (Value::Int(x), Value::Int(y)) => *x == *y,
            (Value::Str(x), Value::Str(y)) => x.eq(y),
            (Value::Error(x), Value::Error(y)) => x.eq(y),
            _ => false,
        }
    }

    /// An owned copy, equal to the original.
    pub fn duplicate(&self) -> (r: Value)
        ensures
            r == *self,
    {
        match self {
            Value::Unit => Value::Unit,
            Value::Bool(b) => Value::Bool(*b),
            Value::Int(n) => Value::Int(*n),
            Value::Str(s) => Value::Str(s.clone()),
            Value::Error(s) => Value::Error(s.clone()),
        }
    }
}

/// Read failure: the handle was absent or did not resolve to a cell.
#[derive(Debug, Clone, PartialEq)]
pub enum SignalsError {
    ReadError(Entity),
    NoSignalError,
}

impl SignalsError {
    /// A short description of the failure.
    pub fn message(&self) -> (r: String)
        ensures
            (*self matches SignalsError::ReadError(_)) ==> r@ == "error reading signal"@,
            *self == SignalsError::NoSignalError ==> r@ == "signal does not exist"@,
    {
        match self {
            SignalsError::ReadError(_) => "error reading signal".to_owned(),
            SignalsError::NoSignalError => "signal does not exist".to_owned(),
        }
    }
}

/// Set of unique entities, kept as a vector and read through membership.
pub struct EntitySet {
    pub items: Vec<Entity>,
}

impl EntitySet {
    /// Membership in the set.
    pub open spec fn has(self, e: Entity) -> bool {
        self.items@.contains(e)
    }

    /// The set has no members.
    pub open spec fn is_empty_spec(self) -> bool {
        forall|x: Entity| !self.has(x)
    }

    pub fn new() -> (r: EntitySet)
        ensures
            r.items@ == Seq::<Entity>::empty(),
            r.is_empty_spec(),
    {
        EntitySet { items: Vec::new() }
    }

    pub fn contains(&self, e: Entity) -> (r: bool)
        ensures
            r == self.has(e),
    {
        let mut i: usize = 0;
        while i < self.items.len()
            invariant
                i <= self.items@.len(),
                forall|k: int| 0 <= k < i ==> self.items@[k] != e,
            decreases self.items@.len() - i,
        {
            if self.items[i] == e {
                assert(self.items@.contains(e)) by {
                    assert(self.items@[i as int] == e);
                }
                return true;
            }
            i += 1;
        }
        false
    }

    /// Adds a member; the set is unchanged if it was already present.
    pub fn insert(&mut self, e: Entity)
        ensures
            forall|x: Entity|
                #![trigger final(self).has(x)]
                #![trigger old(self).has(x)]
                final(self).has(x) <==> (old(self).has(x) || x == e),
            final(self).items@.len() == old(self).items@.len()
                + (if old(self).has(e) { 0int } else { 1int }),
    {
        if !self.contains(e) {
            self.items.push(e);
            assert forall|x: Entity| self.has(x) <==> (old(self).has(x) || x == e) by {
                if x == e {
                    assert(self.items@[self.items@.len() - 1] == e);
                    assert(self.has(e));
                } else {
                    if old(self).has(x) {
                        let k = choose|k: int| 0 <= k < old(self).items@.len()
                            && old(self).items@[k] == x;
                        assert(self.items@[k] == x);
                    }
                    if self.has(x) {
                        let k = choose|k: int| 0 <= k < self.items@.len()
                            && self.items@[k] == x;
                        assert(old(self).items@[k] == x);
                    }
                }
            }
        }
    }

    /// Adds every member of `other`.
    pub fn insert_all(&mut self, other: &EntitySet)
        ensures
            forall|x: Entity|
                #![trigger final(self).has(x)]
                #![trigger old(self).has(x)]
                #![trigger other.has(x)]
                final(self).has(x) <==> (old(self).has(x) || other.has(x)),
    {
        let mut i: usize = 0;
        while i < other.items.len()
            invariant
                i <= other.items@.len(),
                forall|x: Entity|
                    self.has(x) <==> (old(self).has(x) || other.items@.subrange(0, i as int).contains(x)),
            decreases other.items@.len() - i,
        {
            let e = other.items[i];
            self.insert(e);
            assert(other.items@.subrange(0, i + 1 as int)
                =~= other.items@.subrange(0, i as int).push(e));
            assert forall|x: Entity|
                other.items@.subrange(0, i + 1 as int).contains(x)
                    <==> (other.items@.subrange(0, i as int).contains(x) || x == e) by {
                let s0 = other.items@.subrange(0, i as int);
                let s1 = other.items@.subrange(0, i + 1 as int);
                if s1.contains(x) {
                    let k = choose|k: int| 0 <= k < s1.len() && s1[k] == x;
                    if k < s0.len() {
                        assert(s0[k] == x);
                    }
                }
                if s0.contains(x) {
                    let k = choose|k: int| 0 <= k < s0.len() && s0[k] == x;
                    assert(s1[k] == x);
                }
                if x == e {
                    assert(s1[s1.len() - 1] == x);
                }
            }
            i += 1;
        }
        assert(other.items@.subrange(0, other.items@.len() as int) =~= other.items@);
    }

    /// True when some entity in `list` is a member.
    pub fn intersects(&self, list: &Vec<Entity>) -> (r: bool)
        ensures
            r == exists|k: int| 0 <= k < list@.len() && self.has(#[trigger] list@[k]),
    {
        let mut i: usize = 0;
        while i < list.len()
            invariant
                i <= list@.len(),
                forall|k: int| 0 <= k < i ==> !self.has(#[trigger] list@[k]),
            decreases list@.len() - i,
        {
            if self.contains(list[i]) {
                return true;
            }
            i += 1;
        }
        false
    }

    pub fn clear(&mut self)
        ensures
            final(self).items@ == Seq::<Entity>::empty(),
            final(self).is_empty_spec(),
    {
        self.items.clear();
    }

    pub fn len(&self) -> (n: usize)
        ensures
            n == self.items@.len(),
    {
        self.items.len()
    }

    pub fn get(&self, i: usize) -> (e: Entity)
        requires
            i < self.items@.len(),
        ensures
            e == self.items@[i as int],
    {
        self.items[i]
    }

    /// A copy with the same members.
    pub fn duplicate(&self) -> (r: EntitySet)
        ensures
            r.items@ == self.items@,
            forall|x: Entity| r.has(x) <==> self.has(x),
    {
        let mut items: Vec<Entity> = Vec::new();
        let mut i: usize = 0;
        while i < self.items.len()
            invariant
                i <= self.items@.len(),
                items@ == self.items@.subrange(0, i as int),
            decreases self.items@.len() - i,
        {
            items.push(self.items[i]);
            assert(items@ =~= self.items@.subrange(0, i + 1 as int));
            i += 1;
        }
        assert(items@ =~= self.items@);
        EntitySet { items }
    }
}

/// Create an empty set for storing entities.
pub fn empty_set() -> (r: EntitySet)
    ensures
        r.items@ == Seq::<Entity>::empty(),
        r.is_empty_spec(),
{
    EntitySet::new()
}

/// A lazy observable cell: the committed value, an optional pending value
/// staged for the next merge, and a double-buffered subscriber set. The
/// staging set `next_subscribers` is only ever folded into `subscribers`
/// by an explicit commit step (`merge_subscribers`), never read by the
/// notification logic, so a subscription created mid-tick cannot
/// retroactively receive a notification already computed this tick.
pub struct LazyImmutable {
    pub data: Value,
    pub next_value: Option<Value>,
    pub subscribers: EntitySet,
    pub next_subscribers: EntitySet,
}

impl LazyImmutable {
    /// A merge would commit a new value: a pending value is present and
    /// differs from the committed one.
    pub open spec fn merge_changes(self) -> bool {
        match self.next_value {
            Some(v) => !veq(v, self.data),
            None => false,
        }
    }

    /// The value a merge commits.
    pub open spec fn merged_data(self) -> Value {
        match self.next_value {
            Some(v) => if !veq(v, self.data) { v } else { self.data },
            None => self.data,
        }
    }

    pub fn new(data: Value) -> (r: LazyImmutable)
        ensures
            r.data == data,
            r.next_value is None,
            r.subscribers.is_empty_spec(),
            r.subscribers.items@ == Seq::<Entity>::empty(),
            r.next_subscribers.is_empty_spec(),
            r.next_subscribers.items@ == Seq::<Entity>::empty(),
    {
        LazyImmutable {
            data,
            next_value: None,
            subscribers: empty_set(),
            next_subscribers: empty_set(),
        }
    }

    /// Stages a pending value; does not mutate the committed value and
    /// notifies nobody.
    pub fn merge_next(&mut self, next: Value)
        ensures
            final(self).next_value == Some(next),
            final(self).data == old(self).data,
            final(self).subscribers == old(self).subscribers,
            final(self).next_subscribers == old(self).next_subscribers,
    {
        self.next_value = Some(next);
    }

    /// Decides whether `merge` would commit a new value.
    pub fn has_pending_change(&self) -> (r: bool)
        ensures
            r == self.merge_changes(),
    {
        match &self.next_value {
            Some(next) => !next.equals(&self.data),
            None => false,
        }
    }

    /// If the pending value is present and differs from the committed one
    /// under `veq`, commits it, captures and returns the live subscriber
    /// set, and clears the live set (each consumer must re-subscribe by
    /// reading). Otherwise returns the empty set and leaves the live set
    /// alone. Either way the pending value is cleared. The equality check
    /// is the glitch-suppression mechanism: an unchanged value halts
    /// propagation.
    pub fn merge(&mut self) -> (subs: EntitySet)
        ensures
            final(self).next_value is None,
            final(self).next_subscribers == old(self).next_subscribers,
            final(self).data == old(self).merged_data(),
            old(self).merge_changes() ==> {
                &&& subs == old(self).subscribers
                &&& final(self).subscribers.is_empty_spec()
                &&& final(self).subscribers.items@ == Seq::<Entity>::empty()
            },
            !old(self).merge_changes() ==> {
                &&& subs.is_empty_spec()
                &&& final(self).data == old(self).data
                &&& final(self).subscribers == old(self).subscribers
            },
    {
        let mut subs = empty_set();
        let changed = self.has_pending_change();
        let mut pending: Option<Value> = None;
        core::mem::swap(&mut pending, &mut self.next_value);
        if changed {
            self.data = pending.unwrap();
            core::mem::swap(&mut subs, &mut self.subscribers);
        }
        subs
    }

    /// The committed value, with no subscription side effect.
    pub fn read(&self) -> (r: Value)
        ensures
            r == self.data,
    {
        self.data.duplicate()
    }

    /// The committed value, staging `caller` as a subscriber. This is the
    /// only path by which a consumer joins the notification set:
    /// subscription is a side effect of reading.
    pub fn value(&mut self, caller: Entity) -> (r: Value)
        ensures
            r == old(self).data,
            final(self).data == old(self).data,
            final(self).next_value == old(self).next_value,
            final(self).subscribers == old(self).subscribers,
            forall|x: Entity|
                final(self).next_subscribers.has(x) <==> (old(self).next_subscribers.has(x) || x == caller),
    {
        self.subscribe(caller);
        self.data.duplicate()
    }

    /// Stages a subscriber; it becomes live only at the next commit.
    pub fn subscribe(&mut self, entity: Entity)
        ensures
            final(self).data == old(self).data,
            final(self).next_value == old(self).next_value,
            final(self).subscribers == old(self).subscribers,
            forall|x: Entity|
                final(self).next_subscribers.has(x) <==> (old(self).next_subscribers.has(x) || x == entity),
    {
        self.next_subscribers.insert(entity);
    }

    /// Commits all staged subscribers into the live set and clears the
    /// staging set.
    pub fn merge_subscribers(&mut self)
        ensures
            final(self).data == old(self).data,
            final(self).next_value == old(self).next_value,
            forall|x: Entity|
                final(self).subscribers.has(x)
                    <==> (old(self).subscribers.has(x) || old(self).next_subscribers.has(x)),
            final(self).next_subscribers.is_empty_spec(),
            final(self).next_subscribers.items@ == Seq::<Entity>::empty(),
    {
        let staged = self.next_subscribers.duplicate();
        self.subscribers.insert_all(&staged);
        self.next_subscribers.clear();
        assert forall|x: Entity|
            self.subscribers.has(x)
                <==> (old(self).subscribers.has(x) || old(self).next_subscribers.has(x)) by {
            assert(staged.has(x) <==> old(self).next_subscribers.has(x));
        }
    }

    /// The live subscriber set, copied.
    pub fn get_subscribers(&self) -> (subs: EntitySet)
        ensures
            subs.items@ == self.subscribers.items@,
            forall|x: Entity| subs.has(x) <==> self.subscribers.has(x),
    {
        self.subscribers.duplicate()
    }
}

} // verus!
