//! A two-phase map CRDT: entries are keyed by the time of their
//! insertion, values are themselves CRDTs, and a deleted key is
//! tombstoned forever. Operation times are header-derived and unique,
//! so a key is inserted at most once.

use vstd::prelude::*;

verus! {

/// The causal context an operation is applied in. Kept as an
/// interface: concrete stores supply it.
pub trait CausalState {
    type Time;
}

/// A state-based CRDT: applying an operation at its concretized time
/// yields the next state, as the implementation's own `apply_spec`
/// describes it. The causal context (`CausalState`) is not threaded
/// through `apply` here: the map's operations depend only on the
/// operation, its time and the current value, so the context parameter
/// would be dead weight; stores that need it can carry it in `Op`.
pub trait CRDT: Sized {
    type Op;
    type Time;

    /// What applying an operation yields.
    spec fn apply_spec(self, op_time: Self::Time, op: Self::Op) -> Self;

    fn apply(self, op_time: Self::Time, op: Self::Op) -> (r: Self)
        ensures
            r == self.apply_spec(op_time, op),
    ;
}

/// An operation on a two-phase map: insert a fresh value under the
/// operation's own time, apply an inner operation to an entry, or
/// delete (tombstone) an entry.
pub enum TwoPMapOp<V: CRDT> {
    Insert { value: V },
    Apply { key: u64, operation: V::Op },
    Delete { key: u64 },
}

impl<V: CRDT> TwoPMapOp<V> {
    /// The key the operation touches; an insert targets the key the
    /// operation's own time makes.
    pub open spec fn spec_key(self, op_time: u64) -> u64 {
        match self {
            TwoPMapOp::Insert { .. } => op_time,
            TwoPMapOp::Apply { key, .. } => key,
            TwoPMapOp::Delete { key } => key,
        }
    }

    /// The key the operation touches.
    pub fn key(&self, op_time: &u64) -> (r: u64)
        ensures
            r == self.spec_key(*op_time),
    {
        match self {
            TwoPMapOp::Insert { .. } => *op_time,
            TwoPMapOp::Apply { key, .. } => *key,
            TwoPMapOp::Delete { key } => *key,
        }
    }
}

/// Whether the parts of a map respect its invariant: keys unique,
/// tombstones duplicate-free, no key both live and tombstoned.
pub open spec fn parts_wf<V>(entries: Seq<(u64, V)>, tombstones: Seq<u64>) -> bool {
    &&& forall|i: int, j: int|
        0 <= i < j < entries.len() ==> (#[trigger] entries[i]).0 != (#[trigger] entries[j]).0
    &&& tombstones.no_duplicates()
    &&& forall|i: int|
        0 <= i < entries.len() ==> !tombstones.contains((#[trigger] entries[i]).0)
}

/// Two phase map.
pub struct TwoPMap<V> {
    /// The live entries, keyed by insertion time; keys are unique.
    map: Vec<(u64, V)>,
    /// The deleted keys; a tombstoned key never carries an entry again.
    tombstones: Vec<u64>,
}

impl<V> TwoPMap<V> {
    /// Whether a live entry with this key exists.
    pub open spec fn has_key(self, k: u64) -> bool {
        exists|i: int| 0 <= i < self.entries().len() && (#[trigger] self.entries()[i]).0 == k
    }

    /// The live entries, in insertion order.
    pub closed spec fn entries(self) -> Seq<(u64, V)> {
        self.map@
    }

    /// The entry stored under a key.
    pub open spec fn value_at(self, k: u64) -> V {
        self.entries()[choose|i: int|
            0 <= i < self.entries().len() && (#[trigger] self.entries()[i]).0 == k].1
    }

    /// Whether the key was deleted.
    pub closed spec fn is_tombstoned(self, k: u64) -> bool {
        self.tombstones@.contains(k)
    }

    /// The tombstoned keys, in deletion order.
    pub closed spec fn tombstone_seq(self) -> Seq<u64> {
        self.tombstones@
    }

    /// A map's own parts always pass `from_parts`: storing a map and
    /// rebuilding it round-trips.
    pub proof fn lemma_parts_of_wf(self)
        requires
            self.wf(),
        ensures
            parts_wf(self.entries(), self.tombstone_seq()),
    {
    }

    /// Keys are unique and never both live and tombstoned.
    pub closed spec fn wf(self) -> bool {
        &&& forall|i: int, j: int|
            0 <= i < j < self.map@.len() ==> (#[trigger] self.map@[i]).0 != (
            #[trigger] self.map@[j]).0
        &&& self.tombstones@.no_duplicates()
        &&& forall|i: int|
            0 <= i < self.map@.len() ==> !self.tombstones@.contains(
                (#[trigger] self.map@[i]).0,
            )
    }

    /// Position of the live entry with this key, if any.
    fn find(&self, k: u64) -> (r: Option<usize>)
        requires
            self.wf(),
        ensures
            match r {
                Some(i) => self.has_key(k) && 0 <= i < self.entries().len()
                    && self.entries()[i as int].0 == k && self.entries()[i as int].1
                    == self.value_at(k),
                None => !self.has_key(k),
            },
    {
        let mut i: usize = 0;
        while i < self.map.len()
            invariant
                self.wf(),
                0 <= i <= self.map@.len(),
                forall|t: int| 0 <= t < i ==> (#[trigger] self.map@[t]).0 != k,
            decreases self.map@.len() - i,
        {
            if self.map[i].0 == k {
                proof {
                    let x = choose|x: int|
                        0 <= x < self.entries().len() && (#[trigger] self.entries()[x]).0 == k;
                    if x != i {
                        assert(self.map@[x].0 != self.map@[i as int].0);
                    }
                }
                return Some(i);
            }
            i += 1;
        }
        None
    }
}

/// Whether the map's invariants let this operation run: an insert
/// needs a fresh time, an inner apply an existing (or deleted) key.
pub open spec fn op_acceptable<V: CRDT<Time = u64>>(
    m: TwoPMap<V>,
    op_time: u64,
    op: TwoPMapOp<V>,
) -> bool {
    &&& ((op matches TwoPMapOp::Insert { .. }) ==> !m.has_key(op_time))
    &&& (op matches TwoPMapOp::Apply { key, .. } ==> m.has_key(key) || m.is_tombstoned(key))
}

/// What one `apply` step does: a tombstoned key is a no-op; otherwise
/// only the touched key changes, per its operation.
pub open spec fn apply_post<V: CRDT<Time = u64>>(
    pre: TwoPMap<V>,
    op_time: u64,
    op: TwoPMapOp<V>,
    post: TwoPMap<V>,
) -> bool {
    &&& post.wf()
    &&& (pre.is_tombstoned(op.spec_key(op_time)) ==> post == pre)
    &&& (!pre.is_tombstoned(op.spec_key(op_time)) ==> {
        &&& forall|k: u64|
            k != op.spec_key(op_time) ==> (#[trigger] post.has_key(k) == pre.has_key(k)) && (
            post.has_key(k) ==> post.value_at(k) == pre.value_at(k))
        &&& forall|k: u64|
            k != op.spec_key(op_time) ==> #[trigger] post.is_tombstoned(k) == pre.is_tombstoned(
                k,
            )
        &&& (op matches TwoPMapOp::Insert { value } ==> post.has_key(op_time)
            && post.value_at(op_time) == value && !post.is_tombstoned(op_time))
        &&& (op matches TwoPMapOp::Delete { key } ==> !post.has_key(key) && post.is_tombstoned(
            key,
        ))
        &&& (op matches TwoPMapOp::Apply { key, operation } ==> post.has_key(key)
            == pre.has_key(key) && !post.is_tombstoned(key) && (pre.has_key(key)
            ==> post.value_at(key) == pre.value_at(key).apply_spec(op_time, operation)))
    })
}

/// One step of a command's operation list: an acceptable operation is
/// applied, any other is skipped.
pub open spec fn step_applied<V: CRDT<Time = u64>>(
    pre: TwoPMap<V>,
    op_time: u64,
    op: TwoPMapOp<V>,
    post: TwoPMap<V>,
) -> bool {
    if op_acceptable(pre, op_time, op) {
        apply_post(pre, op_time, op, post)
    } else {
        post == pre
    }
}

/// A run of intermediate values: one per operation, each step applied
/// or skipped per `step_applied`.
pub open spec fn ops_trace<V: CRDT<Time = u64>>(
    v0: TwoPMap<V>,
    ops: Seq<(u64, TwoPMapOp<V>)>,
    trace: Seq<TwoPMap<V>>,
) -> bool {
    &&& trace.len() == ops.len() + 1
    &&& trace[0] == v0
    &&& forall|i: int|
        0 <= i < ops.len() ==> step_applied(
            trace[i],
            (#[trigger] ops[i]).0,
            ops[i].1,
            trace[i + 1],
        )
}

/// The whole operation list applied in order: some run of intermediate
/// values leads from the first map to the last.
pub open spec fn ops_applied<V: CRDT<Time = u64>>(
    v0: TwoPMap<V>,
    ops: Seq<(u64, TwoPMapOp<V>)>,
    vn: TwoPMap<V>,
) -> bool {
    exists|trace: Seq<TwoPMap<V>>| (#[trigger] ops_trace(v0, ops, trace)) && trace.last() == vn
}

impl<V: CRDT<Time = u64>> TwoPMap<V> {
    /// An empty map: no entries, no tombstones.
    pub fn new() -> (r: TwoPMap<V>)
        ensures
            r.wf(),
            forall|k: u64| !r.has_key(k),
            forall|k: u64| !r.is_tombstoned(k),
    {
        TwoPMap { map: Vec::new(), tombstones: Vec::new() }
    }

    /// The live entry under a key, if any.
    pub fn get(&self, key: &u64) -> (r: Option<&V>)
        requires
            self.wf(),
        ensures
            match r {
                Some(v) => self.has_key(*key) && *v == self.value_at(*key),
                None => !self.has_key(*key),
            },
    {
        match self.find(*key) {
            Some(i) => Some(&self.map[i].1),
            None => None,
        }
    }

    /// The live entries, in insertion order.
    pub fn iter(&self) -> (r: &Vec<(u64, V)>)
        ensures
            r@ == self.entries(),
    {
        &self.map
    }

    /// The tombstoned keys, in deletion order.
    pub fn tombstone_keys(&self) -> (r: &Vec<u64>)
        ensures
            r@ == self.tombstone_seq(),
            forall|k: u64| r@.contains(k) <==> self.is_tombstoned(k),
    {
        &self.tombstones
    }

    /// Rebuilds a map from its parts (as read back from storage or the
    /// wire), refusing exactly the parts that break the invariant:
    /// duplicate keys, duplicate tombstones, or a key both live and
    /// tombstoned.
    pub fn from_parts(entries: Vec<(u64, V)>, tombstones: Vec<u64>) -> (r: Option<TwoPMap<V>>)
        ensures
            r is Some <==> parts_wf(entries@, tombstones@),
            match r {
                Some(m) => {
                    &&& m.wf()
                    &&& m.entries() == entries@
                    &&& forall|k: u64| m.is_tombstoned(k) <==> tombstones@.contains(k)
                },
                None => true,
            },
    {
        if !crate::vecset::vec_no_dup(&tombstones) {
            return None;
        }
        let mut i: usize = 0;
        while i < entries.len()
            invariant
                0 <= i <= entries@.len(),
                tombstones@.no_duplicates(),
                forall|t1: int, t2: int|
                    0 <= t1 < t2 < i ==> (#[trigger] entries@[t1]).0 != (
                    #[trigger] entries@[t2]).0,
                forall|t: int|
                    0 <= t < i ==> !tombstones@.contains((#[trigger] entries@[t]).0),
            decreases entries@.len() - i,
        {
            if crate::vecset::vec_contains(&tombstones, entries[i].0) {
                return None;
            }
            let mut t: usize = 0;
            while t < i
                invariant
                    0 <= t <= i < entries@.len(),
                    forall|t1: int|
                        0 <= t1 < t ==> (#[trigger] entries@[t1]).0 != entries@[i as int].0,
                decreases i - t,
            {
                if entries[t].0 == entries[i].0 {
                    proof {
                        assert(entries@[t as int].0 == entries@[i as int].0 && t != i);
                    }
                    return None;
                }
                t += 1;
            }
            i += 1;
        }
        let r = TwoPMap { map: entries, tombstones };
        proof {
            assert(r.wf());
        }
        Some(r)
    }

    /// The operation that inserts a value (under the time the
    /// operation will be concretized at).
    pub fn insert(value: V) -> (r: TwoPMapOp<V>)
        ensures
            r == (TwoPMapOp::Insert { value }),
    {
        TwoPMapOp::Insert { value }
    }

    /// Applies one operation at its concretized time. An operation on a
    /// tombstoned key is a no-op; an insert makes a live entry under
    /// the operation's time; an inner apply rewrites one entry in
    /// place; a delete tombstones the key and drops its entry.
    #[verifier::rlimit(50)]
    pub fn apply(self, op_time: u64, op: TwoPMapOp<V>) -> (r: TwoPMap<V>)
        requires
            self.wf(),
            op_acceptable(self, op_time, op),
        ensures
            r.wf(),
            apply_post(self, op_time, op, r),
    {
        let key = op.key(&op_time);
        if crate::vecset::vec_contains(&self.tombstones, key) {
            return self;
        }
        let TwoPMap { mut map, tombstones } = self;
        let ghost map0 = map@;
        match op {
            TwoPMapOp::Insert { value } => {
                map.push((op_time, value));
                let r = TwoPMap { map, tombstones };
                proof {
                    assert forall|k: u64| k != op_time && #[trigger] r.has_key(k) implies
                        self.has_key(k) && r.value_at(k) == self.value_at(k) by {
                        let i = choose|i: int|
                            0 <= i < r.entries().len() && (#[trigger] r.entries()[i]).0 == k;
                        assert(map0[i] == r.entries()[i]);
                        let j = choose|j: int|
                            0 <= j < self.entries().len() && (#[trigger] self.entries()[j]).0
                                == k;
                        assert(r.entries()[j].0 == k);
                        assert(r.value_at(k) == r.entries()[j].1 || r.value_at(k)
                            == r.entries()[i].1);
                    }
                    assert forall|k: u64| k != op_time && self.has_key(k) implies r.has_key(
                        k,
                    ) by {
                        let j = choose|j: int|
                            0 <= j < self.entries().len() && (#[trigger] self.entries()[j]).0
                                == k;
                        assert(r.entries()[j].0 == k);
                    }
                    assert(r.entries()[r.entries().len() - 1].0 == op_time);
                    assert(r.has_key(op_time));
                    assert(r.value_at(op_time) == value) by {
                        let i = choose|i: int|
                            0 <= i < r.entries().len() && (#[trigger] r.entries()[i]).0
                                == op_time;
                        if i != r.entries().len() - 1 {
                            assert(self.entries()[i].0 == op_time);
                            assert(self.has_key(op_time));
                        }
                    }
                }
                r
            },
            TwoPMapOp::Apply { key, operation } => {
                let r = TwoPMap { map: apply_inner(map, key, op_time, operation), tombstones };
                proof {
                    assert forall|k: u64|
                        k != key implies (#[trigger] r.has_key(k) == self.has_key(k)) && (
                        r.has_key(k) ==> r.value_at(k) == self.value_at(k)) by {
                        if self.has_key(k) {
                            let j = choose|j: int|
                                0 <= j < self.entries().len() && (#[trigger] self.entries()[j]).0
                                    == k;
                            assert(r.entries()[j].0 == k);
                            assert(r.has_key(k));
                        }
                        if r.has_key(k) {
                            let j = choose|j: int|
                                0 <= j < r.entries().len() && (#[trigger] r.entries()[j]).0 == k;
                            assert(self.entries()[j].0 == k);
                            assert(self.has_key(k));
                            let a = choose|a: int|
                                0 <= a < r.entries().len() && (#[trigger] r.entries()[a]).0 == k;
                            let b = choose|b: int|
                                0 <= b < self.entries().len() && (#[trigger] self.entries()[b]).0
                                    == k;
                            assert(r.entries()[a].0 == self.entries()[a].0);
                            if a != b {
                                assert(self.entries()[a].0 != self.entries()[b].0);
                            }
                            assert(r.entries()[a] == self.entries()[b]);
                        }
                    }
                    assert(r.has_key(key) == self.has_key(key)) by {
                        if self.has_key(key) {
                            let j = choose|j: int|
                                0 <= j < self.entries().len() && (#[trigger] self.entries()[j]).0
                                    == key;
                            assert(r.entries()[j].0 == key);
                        }
                        if r.has_key(key) {
                            let j = choose|j: int|
                                0 <= j < r.entries().len() && (#[trigger] r.entries()[j]).0
                                    == key;
                            assert(self.entries()[j].0 == key);
                        }
                    }
                    if self.has_key(key) {
                        let b = choose|b: int|
                            0 <= b < self.entries().len() && (#[trigger] self.entries()[b]).0
                                == key;
                        let a = choose|a: int|
                            0 <= a < r.entries().len() && (#[trigger] r.entries()[a]).0 == key;
                        assert(r.entries()[a].0 == self.entries()[a].0);
                        if a != b {
                            assert(self.entries()[a].0 != self.entries()[b].0);
                        }
                        assert(r.entries()[b] == (
                            key,
                            self.entries()[b].1.apply_spec(op_time, operation),
                        ));
                        assert(r.value_at(key) == self.value_at(key).apply_spec(
                            op_time,
                            operation,
                        ));
                    }
                }
                r
            },
            TwoPMapOp::Delete { key } => {
                let mut j: usize = 0;
                let n = map.len();
                let mut found = false;
                while j < n && !found
                    invariant
                        n == map@.len(),
                        map@ == map0,
                        0 <= j <= n,
                        !found ==> forall|t: int| 0 <= t < j ==> (#[trigger] map@[t]).0 != key,
                        found ==> j < n && map@[j as int].0 == key,
                    decreases n - j, (if found { 0int } else { 1int }),
                {
                    if map[j].0 == key {
                        found = true;
                    } else {
                        j += 1;
                    }
                }
                if found {
                    map.remove(j);
                    proof {
                        map0.remove_ensures(j as int);
                    }
                }
                let mut ts = tombstones;
                crate::vecset::set_insert(&mut ts, key);
                let r = TwoPMap { map, tombstones: ts };
                proof {
                    assert forall|k: u64|
                        k != key implies (#[trigger] r.has_key(k) == self.has_key(k)) && (
                        r.has_key(k) ==> r.value_at(k) == self.value_at(k)) by {
                        if !found {
                            assert(r.entries() == map0);
                        } else {
                            if self.has_key(k) {
                                let b = choose|b: int|
                                    0 <= b < self.entries().len() && (
                                    #[trigger] self.entries()[b]).0 == k;
                                assert(b != j);
                                if b < j {
                                    assert(r.entries()[b].0 == k);
                                } else {
                                    assert(r.entries()[b - 1] == map0[b]);
                                    assert(r.entries()[b - 1].0 == k);
                                }
                                assert(r.has_key(k));
                            }
                            if r.has_key(k) {
                                let a = choose|a: int|
                                    0 <= a < r.entries().len() && (#[trigger] r.entries()[a]).0
                                        == k;
                                if a < j {
                                    assert(map0[a].0 == k);
                                    assert(self.has_key(k));
                                } else {
                                    assert(r.entries()[a] == map0[a + 1]);
                                    assert(self.has_key(k));
                                }
                                let a2 = choose|a2: int|
                                    0 <= a2 < r.entries().len() && (#[trigger] r.entries()[a2]).0
                                        == k;
                                let b2 = choose|b2: int|
                                    0 <= b2 < self.entries().len() && (
                                    #[trigger] self.entries()[b2]).0 == k;
                                let src = if a2 < j {
                                    a2
                                } else {
                                    a2 + 1
                                };
                                assert(r.entries()[a2] == map0[src]);
                                if src != b2 {
                                    assert(map0[src].0 != map0[b2].0);
                                }
                                assert(r.value_at(k) == self.value_at(k));
                            }
                        }
                    }
                    assert(!r.has_key(key)) by {
                        if r.has_key(key) {
                            let a = choose|a: int|
                                0 <= a < r.entries().len() && (#[trigger] r.entries()[a]).0
                                    == key;
                            if found {
                                if a < j {
                                    assert(map0[a].0 == key && map0[j as int].0 == key);
                                } else {
                                    assert(r.entries()[a] == map0[a + 1]);
                                    assert(map0[a + 1].0 == key && map0[j as int].0 == key);
                                }
                            } else {
                                assert(map0[a].0 == key);
                            }
                            assert(false);
                        }
                    }
                    assert(r.is_tombstoned(key)) by {
                        assert(r.tombstones@.to_set().contains(key));
                    }
                    assert forall|k: u64| k != key implies #[trigger] r.is_tombstoned(k)
                        == self.is_tombstoned(k) by {
                        assert(r.tombstones@.to_set() =~= tombstones@.to_set().insert(key));
                        assert(r.tombstones@.contains(k) == r.tombstones@.to_set().contains(k));
                        assert(tombstones@.contains(k) == tombstones@.to_set().contains(k));
                    }
                    assert forall|i2: int, j2: int|
                        0 <= i2 < j2 < r.map@.len() implies (#[trigger] r.map@[i2]).0 != (
                    #[trigger] r.map@[j2]).0 by {
                        if found {
                            let s1 = if i2 < j {
                                i2
                            } else {
                                i2 + 1
                            };
                            let s2 = if j2 < j {
                                j2
                            } else {
                                j2 + 1
                            };
                            assert(r.map@[i2] == map0[s1]);
                            assert(r.map@[j2] == map0[s2]);
                        }
                    }
                    assert forall|i2: int|
                        0 <= i2 < r.map@.len() implies !r.tombstones@.contains(
                        (#[trigger] r.map@[i2]).0) by {
                        let s1 = if found && i2 >= j {
                            i2 + 1
                        } else {
                            i2
                        };
                        assert(r.map@[i2] == map0[s1]);
                        assert(!tombstones@.contains(map0[s1].0));
                        assert(r.map@[i2].0 != key);
                        assert(r.tombstones@.to_set() =~= tombstones@.to_set().insert(key));
                        if r.tombstones@.contains(r.map@[i2].0) {
                            assert(r.tombstones@.to_set().contains(r.map@[i2].0));
                            assert(tombstones@.to_set().contains(r.map@[i2].0) || r.map@[i2].0
                                == key);
                            assert(tombstones@.contains(r.map@[i2].0));
                            let u = choose|u: int|
                                0 <= u < tombstones@.len() && tombstones@[u] == r.map@[i2].0;
                            assert(false);
                        }
                    }
                }
                r
            },
        }
    }
}

/// Rewrites the entry under `key`, if present, by applying the inner
/// operation at the given time; every other entry and all keys stay
/// put.
fn apply_inner<V: CRDT<Time = u64>>(
    map: Vec<(u64, V)>,
    key: u64,
    op_time: u64,
    operation: V::Op,
) -> (r: Vec<(u64, V)>)
    requires
        forall|i: int, j: int|
            0 <= i < j < map@.len() ==> (#[trigger] map@[i]).0 != (#[trigger] map@[j]).0,
    ensures
        r@.len() == map@.len(),
        forall|t: int| 0 <= t < r@.len() ==> (#[trigger] r@[t]).0 == map@[t].0,
        forall|t: int| 0 <= t < r@.len() && map@[t].0 != key ==> (#[trigger] r@[t]) == map@[t],
        forall|t: int|
            0 <= t < r@.len() && map@[t].0 == key ==> (#[trigger] r@[t]) == (
            key,
            map@[t].1.apply_spec(op_time, operation),
            ),
{
    let ghost map0 = map@;
    let mut map = map;
    let n = map.len();
    let mut j: usize = 0;
    let mut found = false;
    while j < n && !found
        invariant
            n == map@.len(),
            map@ == map0,
            0 <= j <= n,
            !found ==> forall|t: int| 0 <= t < j ==> (#[trigger] map@[t]).0 != key,
            found ==> j < n && map@[j as int].0 == key,
        decreases n - j, (if found { 0int } else { 1int }),
    {
        if map[j].0 == key {
            found = true;
        } else {
            j += 1;
        }
    }
    if !found {
        return map;
    }
    let entry = map.remove(j);
    proof {
        map0.remove_ensures(j as int);
    }
    let (k, v) = entry;
    let v2 = v.apply(op_time, operation);
    map.insert(j, (k, v2));
    proof {
        let ghost mid = map0.remove(j as int);
        mid.insert_ensures(j as int, (k, v2));
        assert(map0[j as int] == (k, v));
        assert forall|t: int| 0 <= t < map@.len() implies (#[trigger] map@[t]).0 == map0[t].0
            && (map0[t].0 != key ==> map@[t] == map0[t]) && (map0[t].0 == key ==> map@[t] == (
        key,
        map0[t].1.apply_spec(op_time, operation),
        )) by {
            if t < j {
                assert(map@[t] == mid[t]);
                assert(mid[t] == map0[t]);
                assert(map0[t].0 != map0[j as int].0);
            } else if t == j {
                assert(map@[t] == (k, v2));
            } else {
                assert(map@[t] == mid[t - 1]);
                assert(mid[t - 1] == map0[t]);
                assert(map0[j as int].0 != map0[t].0);
            }
        }
    }
    map
}

} // verus!
