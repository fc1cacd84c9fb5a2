//! Generational handles into a table of raw positions.
//!
//! An `ID` names a slot of the table together with the generation (time
//! stamp) the slot had when the handle was issued.  Removing a binding bumps
//! the slot's time stamp, so every handle issued for it before goes stale.
use vstd::prelude::*;

verus! {

/// A handle: the slot it points into and the time stamp it was issued for.
#[derive(Debug, Default, PartialEq, Clone, Copy, PartialOrd, Ord, Eq, Structural)]
pub struct ID(pub usize, pub usize);

/// Why a handle could not be used.
#[derive(Debug, PartialEq, Eq, Clone, Copy, Structural)]
pub enum IDError {
    IDOutDated,
    IDOutOfRange,
    IDDeleted,
}

impl IDError {
    /// The name of the error, which is how the error displays itself.
    pub fn name(&self) -> (s: &'static str)
        ensures
            s@ == match *self {
                IDError::IDOutDated => "IDOutDated"@,
                IDError::IDOutOfRange => "IDOutOfRange"@,
                IDError::IDDeleted => "IDDeleted"@,
            },
    {
        match self {
            IDError::IDOutDated => "IDOutDated",
            IDError::IDOutOfRange => "IDOutOfRange",
            IDError::IDDeleted => "IDDeleted",
        }
    }
}

/// One slot of the table: its time stamp and, when bound, the raw position.
pub type Slot = (usize, Option<usize>);

/// The abstract state of an `IDManager`.
#[verifier::ext_equal]
pub struct IdTable {
    /// Every slot ever created, in index order.
    pub slots: Seq<Slot>,
    /// A slot remembered as free, tried first by the next `new`.
    pub cached_free: Option<usize>,
    /// How many slots are unbound.
    pub free_count: nat,
}

/// Number of unbound slots in `s`.
pub open spec fn count_empty(s: Seq<Slot>) -> nat
    decreases s.len(),
{
    if s.len() == 0 {
        0
    } else {
        count_empty(s.drop_last()) + if s.last().1 is None {
            1nat
        } else {
            0nat
        }
    }
}

/// `i` is the lowest index of an unbound slot of `s`.
pub open spec fn is_first_empty(s: Seq<Slot>, i: int) -> bool {
    &&& 0 <= i < s.len()
    &&& s[i].1 is None
    &&& forall|j: int| 0 <= j < i ==> (#[trigger] s[j]).1 is Some
}

/// The lowest index of an unbound slot (meaningful when there is one).
pub open spec fn first_empty(s: Seq<Slot>) -> int {
    choose|i: int| is_first_empty(s, i)
}

impl IdTable {
    /// The table of a freshly made manager.
    pub open spec fn empty() -> IdTable {
        IdTable { slots: Seq::empty(), cached_free: None, free_count: 0 }
    }

    /// The bookkeeping agrees with the slots.
    pub open spec fn wf(self) -> bool {
        &&& self.slots.len() <= usize::MAX
        &&& self.free_count == count_empty(self.slots)
        &&& (self.cached_free matches Some(i) ==> i < self.slots.len() && self.slots[i as int].1 is None)
    }

    /// `id` points into the table and carries the slot's current time stamp.
    pub open spec fn is_current(self, id: ID) -> bool {
        id.0 < self.slots.len() && self.slots[id.0 as int].0 == id.1
    }

    /// `id` is current and its slot is bound.
    pub open spec fn is_live(self, id: ID) -> bool {
        self.is_current(id) && self.slots[id.0 as int].1 is Some
    }

    /// What looking `id` up gives, for every `id` on which the lookup does not fail.
    pub open spec fn lookup(self, id: ID) -> Result<usize, IDError> {
        if id.0 >= self.slots.len() {
            Err(IDError::IDOutOfRange)
        } else if self.slots[id.0 as int].0 != id.1 {
            Err(IDError::IDOutDated)
        } else {
            Ok(self.slots[id.0 as int].1.unwrap())
        }
    }

    /// A lookup of `id` is defined: it is not a current handle of an unbound slot.
    pub open spec fn lookup_defined(self, id: ID) -> bool {
        self.is_current(id) ==> self.is_live(id)
    }

    /// The table after binding `pos`, and the handle issued for it: the
    /// remembered free slot when there is one, else the lowest unbound slot
    /// when some slot is unbound, else a new slot at the end.
    pub open spec fn new_spec(self, pos: usize) -> (IdTable, ID) {
        match self.cached_free {
            Some(i) => (
                IdTable {
                    slots: self.slots.update(i as int, (self.slots[i as int].0, Some(pos))),
                    cached_free: None,
                    free_count: (self.free_count - 1) as nat,
                },
                ID(i, self.slots[i as int].0),
            ),
            None => if self.free_count > 0 {
                let i = first_empty(self.slots);
                (
                    IdTable {
                        slots: self.slots.update(i, (self.slots[i].0, Some(pos))),
                        cached_free: None,
                        free_count: (self.free_count - 1) as nat,
                    },
                    ID(i as usize, self.slots[i].0),
                )
            } else {
                (
                    IdTable {
                        slots: self.slots.push((0usize, Some(pos))),
                        cached_free: None,
                        free_count: self.free_count,
                    },
                    ID(self.slots.len() as usize, 0),
                )
            },
        }
    }

    /// Releases slot `i`: bumps its time stamp, unbinds it and remembers it
    /// as free when no free slot is remembered yet.
    pub open spec fn release(self, i: int) -> IdTable {
        IdTable {
            slots: self.slots.update(i, ((self.slots[i].0 + 1) as usize, None)),
            cached_free: if self.cached_free is None {
                Some(i as usize)
            } else {
                self.cached_free
            },
            free_count: self.free_count + 1,
        }
    }

    /// `remove` does not overflow a time stamp on `id`.
    pub open spec fn remove_defined(self, id: ID) -> bool {
        self.is_live(id) ==> self.slots[id.0 as int].0 < usize::MAX
    }

    /// The table after removing `id`, and what `remove` returns.
    pub open spec fn remove_spec(self, id: ID) -> (IdTable, Result<(), IDError>) {
        if id.0 >= self.slots.len() {
            (self, Err(IDError::IDOutOfRange))
        } else if self.slots[id.0 as int].0 != id.1 {
            (self, Err(IDError::IDOutDated))
        } else if self.slots[id.0 as int].1 is None {
            (self, Err(IDError::IDDeleted))
        } else {
            (self.release(id.0 as int), Ok(()))
        }
    }

    /// `swap_remove(id, replacement)` on handles into the table neither
    /// overflows a time stamp nor finds the replacement's slot unbound.
    pub open spec fn swap_remove_defined(self, id: ID, replacement: ID) -> bool {
        let len = self.slots.len();
        id.0 < len && replacement.0 < len && self.slots[replacement.0 as int].0 == replacement.1
            && self.is_live(id) ==> {
            &&& self.slots[id.0 as int].0 < usize::MAX
            &&& replacement.0 != id.0
            &&& self.slots[replacement.0 as int].1 is Some
        }
    }

    /// The table after `swap_remove(id, replacement)`, and what it returns:
    /// `id`'s slot is released and the replacement's slot takes over the raw
    /// position that `id` was bound to.
    pub open spec fn swap_remove_spec(self, id: ID, replacement: ID) -> (IdTable, Result<(), IDError>) {
        let len = self.slots.len();
        if len <= id.0 || len <= replacement.0 {
            (self, Err(IDError::IDOutOfRange))
        } else if self.slots[replacement.0 as int].0 != replacement.1 {
            (self, Err(IDError::IDOutDated))
        } else if self.slots[id.0 as int].0 != id.1 {
            (self, Err(IDError::IDOutDated))
        } else if self.slots[id.0 as int].1 is None {
            (self, Err(IDError::IDDeleted))
        } else {
            let released = self.release(id.0 as int);
            let r = replacement.0 as int;
            (
                IdTable {
                    slots: released.slots.update(r, (released.slots[r].0, self.slots[id.0 as int].1)),
                    ..released
                },
                Ok(()),
            )
        }
    }
}

/// Hands out `ID`s for raw positions and tracks which of them are still valid.
pub struct IDManager {
    map: Vec<Slot>,
    next_empty_index: Option<usize>,
    empty_spaces: usize,
}

impl View for IDManager {
    type V = IdTable;

    closed spec fn view(&self) -> IdTable {
        IdTable {
            slots: self.map@,
            cached_free: self.next_empty_index,
            free_count: self.empty_spaces as nat,
        }
    }
}

proof fn lemma_count_empty_update(s: Seq<Slot>, i: int, v: Slot)
    requires
        0 <= i < s.len(),
    ensures
        count_empty(s.update(i, v)) + (if s[i].1 is None { 1int } else { 0int }) == count_empty(s)
            + (if v.1 is None { 1int } else { 0int }),
    decreases s.len(),
{
    if i == s.len() - 1 {
        assert(s.update(i, v).drop_last() =~= s.drop_last());
    } else {
        lemma_count_empty_update(s.drop_last(), i, v);
        assert(s.update(i, v).drop_last() =~= s.drop_last().update(i, v));
    }
}

proof fn lemma_count_empty_push(s: Seq<Slot>, v: Slot)
    ensures
        count_empty(s.push(v)) == count_empty(s) + (if v.1 is None { 1nat } else { 0nat }),
{
    assert(s.push(v).drop_last() =~= s);
}

proof fn lemma_count_empty_bounded(s: Seq<Slot>)
    ensures
        count_empty(s) <= s.len(),
    decreases s.len(),
{
    if s.len() > 0 {
        lemma_count_empty_bounded(s.drop_last());
    }
}

proof fn lemma_count_empty_all_bound(s: Seq<Slot>)
    requires
        forall|j: int| 0 <= j < s.len() ==> (#[trigger] s[j]).1 is Some,
    ensures
        count_empty(s) == 0,
    decreases s.len(),
{
    if s.len() > 0 {
        lemma_count_empty_all_bound(s.drop_last());
    }
}

proof fn lemma_first_empty_unique(s: Seq<Slot>, i: int)
    requires
        is_first_empty(s, i),
    ensures
        first_empty(s) == i,
{
    let c = first_empty(s);
    assert(is_first_empty(s, c));
    if c < i {
        assert(s[c].1 is Some);
    } else if i < c {
        assert(s[i].1 is Some);
    }
}

proof fn lemma_first_empty_exists(s: Seq<Slot>)
    requires
        count_empty(s) > 0,
    ensures
        is_first_empty(s, first_empty(s)),
{
    lemma_first_empty_from(s, 0);
}

proof fn lemma_first_empty_from(s: Seq<Slot>, k: int)
    requires
        count_empty(s) > 0,
        0 <= k <= s.len(),
        forall|j: int| 0 <= j < k ==> (#[trigger] s[j]).1 is Some,
    ensures
        is_first_empty(s, first_empty(s)),
    decreases s.len() - k,
{
    if k == s.len() {
        lemma_count_empty_all_bound(s);
    } else if s[k].1 is None {
        assert(is_first_empty(s, k));
    } else {
        lemma_first_empty_from(s, k + 1);
    }
}

impl IDManager {
    /// The manager's bookkeeping agrees with its slots.
    pub open spec fn wf(&self) -> bool {
        self@.wf()
    }

    /// Looks `id` up: the raw position it is bound to, or why it cannot be used.
    pub fn get(&self, id: ID) -> (r: Result<usize, IDError>)
        requires
            self@.lookup_defined(id),
        ensures
            r == self@.lookup(id),
    {
        if self.map.len() <= id.0 {
            Err(IDError::IDOutOfRange)
        } else {
            let (timestamp, maybe_id) = self.map[id.0];
            if timestamp != id.1 {
                Err(IDError::IDOutDated)
            } else {
                Ok(maybe_id.unwrap())
            }
        }
    }

    /// Whether `id` points into the table with the slot's current time stamp.
    pub fn valid(&self, id: ID) -> (b: bool)
        ensures
            b == self@.is_current(id),
    {
        if self.map.len() <= id.0 {
            false
        } else {
            let (timestamp, _maybe_id) = self.map[id.0];
            timestamp == id.1
        }
    }

    /// Binds `pos` to a slot and returns the handle for it (see `new_spec`).
    /// A remembered free slot is used first, then the lowest unbound slot,
    /// and only when no slot is unbound does the table grow.
    pub fn new(&mut self, pos: usize) -> (id: ID)
        requires
            old(self).wf(),
        ensures
            final(self).wf(),
            final(self)@ == old(self)@.new_spec(pos).0,
            id == old(self)@.new_spec(pos).1,
    {
        let ghost t = self@;
        if let Some(index) = self.next_empty_index.take() {
            let ts = self.map[index].0;
            self.map.set(index, (ts, Some(pos)));
            proof {
                lemma_count_empty_update(t.slots, index as int, (ts, Some(pos)));
            }
            self.empty_spaces = self.empty_spaces - 1;
            proof {
                assert(self@ =~= t.new_spec(pos).0);
            }
            ID(index, ts)
        } else {
            if self.empty_spaces > 0 {
                let mut index: usize = 0;
                while index < self.map.len()
                    invariant
                        self@ == t,
                        t == old(self)@,
                        t.wf(),
                        t.cached_free is None,
                        t.free_count > 0,
                        index <= self.map.len(),
                        forall|j: int| 0 <= j < index ==> (#[trigger] t.slots[j]).1 is Some,
                    decreases self.map.len() - index,
                {
                    if self.map[index].1.is_none() {
                        let ts = self.map[index].0;
                        proof {
                            lemma_first_empty_unique(t.slots, index as int);
                            lemma_count_empty_update(t.slots, index as int, (ts, Some(pos)));
                        }
                        self.map.set(index, (ts, Some(pos)));
                        self.empty_spaces = self.empty_spaces - 1;
                        proof {
                            assert(self@ =~= t.new_spec(pos).0);
                        }
                        return ID(index, ts);
                    }
                    index = index + 1;
                }
                proof {
                    lemma_count_empty_all_bound(t.slots);
                }
            }
            self.map.push((0, Some(pos)));
            let len = self.map.len();
            proof {
                lemma_count_empty_push(t.slots, (0usize, Some(pos)));
                assert(self@ =~= t.new_spec(pos).0);
            }
            ID(len - 1, 0)
        }
    }

    /// Removes the binding of `id`, leaving its slot free and every handle
    /// to it stale.
    pub fn remove(&mut self, id: ID) -> (r: Result<(), IDError>)
        requires
            old(self).wf(),
            old(self)@.remove_defined(id),
        ensures
            final(self).wf(),
            final(self)@ == old(self)@.remove_spec(id).0,
            r == old(self)@.remove_spec(id).1,
            r is Ok <==> old(self)@.is_live(id),
            r is Err ==> final(self)@ == old(self)@,
    {
        if self.map.len() <= id.0 {
            Err(IDError::IDOutOfRange)
        } else {
            let (timestamp, maybe_id) = self.map[id.0];
            if timestamp != id.1 {
                return Err(IDError::IDOutDated);
            }
            if let Some(_old_raw_id) = maybe_id {
                self.release(id.0);
                Ok(())
            } else {
                Err(IDError::IDDeleted)
            }
        }
    }

    /// Unbinds slot `index` and bumps its time stamp.
    fn release(&mut self, index: usize)
        requires
            old(self).wf(),
            index < old(self)@.slots.len(),
            old(self)@.slots[index as int].1 is Some,
            old(self)@.slots[index as int].0 < usize::MAX,
        ensures
            final(self).wf(),
            final(self)@ == old(self)@.release(index as int),
    {
        let ghost t = self@;
        let timestamp = self.map[index].0;
        self.map.set(index, (timestamp + 1, None));
        let len = self.map.len();
        if self.next_empty_index.is_none() {
            self.next_empty_index = Some(index);
        }
        proof {
            lemma_count_empty_update(t.slots, index as int, ((timestamp + 1) as usize, None));
            lemma_count_empty_bounded(self.map@);
            assert(count_empty(self.map@) <= len);
        }
        self.empty_spaces = self.empty_spaces + 1;
        proof {
            assert(self@ =~= t.release(index as int));
        }
    }

    /// Removes the binding of `id` and hands the raw position it was bound to
    /// over to `replacement`, as after a `swap_remove` on the list of objects.
    pub fn swap_remove(&mut self, id: ID, replacement: ID) -> (r: Result<(), IDError>)
        requires
            old(self).wf(),
            old(self)@.swap_remove_defined(id, replacement),
        ensures
            final(self).wf(),
            final(self)@ == old(self)@.swap_remove_spec(id, replacement).0,
            r == old(self)@.swap_remove_spec(id, replacement).1,
            r is Ok <==> old(self)@.is_live(id) && old(self)@.is_current(replacement),
            r is Err ==> final(self)@ == old(self)@,
    {
        let ghost t = self@;
        if self.map.len() <= id.0 {
            Err(IDError::IDOutOfRange)
        } else if self.map.len() <= replacement.0 {
            Err(IDError::IDOutOfRange)
        } else {
            if self.map[replacement.0].0 != replacement.1 {
                return Err(IDError::IDOutDated);
            }
            let (timestamp, maybe_id) = self.map[id.0];
            if timestamp != id.1 {
                return Err(IDError::IDOutDated);
            }
            if let Some(old_raw_id) = maybe_id {
                self.release(id.0);
                let ghost released = self@;
                let replacement_ts = self.map[replacement.0].0;
                self.map.set(replacement.0, (replacement_ts, Some(old_raw_id)));
                proof {
                    lemma_count_empty_update(
                        released.slots,
                        replacement.0 as int,
                        (replacement_ts, Some(old_raw_id)),
                    );
                    assert(self@ =~= t.swap_remove_spec(id, replacement).0);
                }
                Ok(())
            } else {
                Err(IDError::IDDeleted)
            }
        }
    }
}

impl Default for IDManager {
    fn default() -> (m: Self)
        ensures
            m.wf(),
            m@ == IdTable::empty(),
    {
        let m = IDManager { map: Vec::new(), next_empty_index: None, empty_spaces: 0 };
        assert(m.map@.len() == 0);
        proof {
            assert(m@ =~= IdTable::empty());
        }
        m
    }
}


impl IdTable {
    /// `id` was issued for an earlier generation of its slot.
    pub open spec fn is_stale(self, id: ID) -> bool {
        id.0 < self.slots.len() && id.1 < self.slots[id.0 as int].0
    }

    /// `later` keeps every slot of `self`, each with a time stamp no smaller.
    pub open spec fn grown_into(self, later: IdTable) -> bool {
        &&& self.slots.len() <= later.slots.len()
        &&& forall|i: int| 0 <= i < self.slots.len() ==> self.slots[i].0 <= (#[trigger] later.slots[i]).0
    }
}

/// A fresh manager knows no handle: none is valid, and looking one up,
/// removing it or swap-removing with it reports it out of range.
pub proof fn lemma_fresh_table_knows_no_id(id: ID, other: ID)
    ensures
        !IdTable::empty().is_current(id),
        IdTable::empty().lookup(id) == Err::<usize, IDError>(IDError::IDOutOfRange),
        IdTable::empty().remove_spec(id) == (IdTable::empty(), Err::<(), IDError>(IDError::IDOutOfRange)),
        IdTable::empty().swap_remove_spec(id, other) == (
            IdTable::empty(),
            Err::<(), IDError>(IDError::IDOutOfRange),
        ),
{
}

/// A new handle is valid and resolves to the position it was issued for,
/// and the bookkeeping stays consistent.
pub proof fn lemma_new_binds(t: IdTable, pos: usize)
    requires
        t.wf(),
        t.slots.len() < usize::MAX,
    ensures
        t.new_spec(pos).0.wf(),
        t.new_spec(pos).0.is_live(t.new_spec(pos).1),
        t.new_spec(pos).0.lookup(t.new_spec(pos).1) == Ok::<usize, IDError>(pos),
{
    lemma_new_shape(t, pos);
}

/// Facts about where `new` binds: a remembered free slot, else the lowest
/// unbound slot, else a new slot at the end.
proof fn lemma_new_shape(t: IdTable, pos: usize)
    requires
        t.wf(),
        t.slots.len() < usize::MAX,
    ensures
        ({
            let (t2, id) = t.new_spec(pos);
            &&& t2.wf()
            &&& id.0 < t2.slots.len()
            &&& (id.0 < t.slots.len() ==> t.slots[id.0 as int].1 is None)
            &&& (t.free_count > 0 ==> id.0 < t.slots.len() && t2.slots.len() == t.slots.len())
            &&& (t.free_count == 0 ==> id.0 == t.slots.len() && t2.slots.len() == t.slots.len() + 1)
            &&& t2.slots.len() == t.slots.len() || t2.slots.len() == t.slots.len() + 1
            &&& t2.slots[id.0 as int] == (id.1, Some(pos))
            &&& forall|i: int| 0 <= i < t.slots.len() && i != id.0 ==> t2.slots[i] == t.slots[i]
            &&& forall|i: int| 0 <= i < t.slots.len() ==> t2.slots[i].0 == t.slots[i].0
        }),
{
    let (t2, id) = t.new_spec(pos);
    match t.cached_free {
        Some(i) => {
            lemma_count_empty_update(t.slots, i as int, (t.slots[i as int].0, Some(pos)));
            assert(t2.slots.len() == t.slots.len());
            assert(t2.wf());
        },
        None => {
            if t.free_count > 0 {
                lemma_first_empty_exists(t.slots);
                let i = first_empty(t.slots);
                lemma_count_empty_update(t.slots, i, (t.slots[i].0, Some(pos)));
                assert(t2.slots.len() == t.slots.len());
                assert(id.0 as int == i);
                assert(t2.wf());
            } else {
                lemma_count_empty_push(t.slots, (0usize, Some(pos)));
                assert(t2.slots.len() == t.slots.len() + 1);
                assert(t2.slots[id.0 as int] == (id.1, Some(pos)));
                assert(t2.wf());
            }
        },
    }
}

/// Issuing a new handle leaves every live handle live and bound as before,
/// and the new handle differs from each of them.
pub proof fn lemma_new_keeps_live_bindings(t: IdTable, pos: usize, other: ID)
    requires
        t.wf(),
        t.slots.len() < usize::MAX,
        t.is_live(other),
    ensures
        t.new_spec(pos).0.is_live(other),
        t.new_spec(pos).0.lookup(other) == t.lookup(other),
        t.new_spec(pos).1 != other,
{
    lemma_new_shape(t, pos);
}

/// `new` fills an unbound slot when there is one, and grows the table by
/// exactly one slot only when every slot is bound.
pub proof fn lemma_new_grows_only_when_full(t: IdTable, pos: usize)
    requires
        t.wf(),
        t.slots.len() < usize::MAX,
    ensures
        t.free_count > 0 <==> t.new_spec(pos).0.slots.len() == t.slots.len(),
        t.free_count == 0 <==> t.new_spec(pos).0.slots.len() == t.slots.len() + 1,
        t.new_spec(pos).0.free_count + 1 == t.free_count || t.free_count == 0,
{
    lemma_new_shape(t, pos);
}

/// `remove` succeeds exactly on live handles; a removed handle is stale from
/// then on, and the table stays consistent.  A failed `remove` changes nothing.
pub proof fn lemma_remove_invalidates(t: IdTable, id: ID)
    requires
        t.wf(),
        t.remove_defined(id),
    ensures
        t.remove_spec(id).1 is Ok <==> t.is_live(id),
        t.remove_spec(id).1 is Ok ==> t.remove_spec(id).0.is_stale(id) && !t.remove_spec(id).0.is_current(id),
        t.remove_spec(id).1 is Err ==> t.remove_spec(id).0 == t,
        t.remove_spec(id).0.wf(),
{
    if t.is_live(id) {
        lemma_release_wf(t, id.0 as int);
    }
}

proof fn lemma_release_wf(t: IdTable, i: int)
    requires
        t.wf(),
        0 <= i < t.slots.len(),
        t.slots[i].1 is Some,
        t.slots[i].0 < usize::MAX,
    ensures
        t.release(i).wf(),
{
    lemma_count_empty_update(t.slots, i, ((t.slots[i].0 + 1) as usize, None));
}

/// Removing one handle leaves every handle into another slot exactly as it was.
pub proof fn lemma_remove_keeps_other_bindings(t: IdTable, id: ID, other: ID)
    requires
        other.0 != id.0,
    ensures
        t.remove_spec(id).0.is_current(other) == t.is_current(other),
        t.remove_spec(id).0.is_live(other) == t.is_live(other),
        t.remove_spec(id).0.lookup(other) == t.lookup(other),
{
}

/// `swap_remove(id, replacement)` on a live `id` and a current replacement
/// succeeds: `id` goes stale, the replacement stays live and now resolves to
/// the position `id` resolved to, and handles into other slots are untouched.
pub proof fn lemma_swap_remove_moves_binding(t: IdTable, id: ID, replacement: ID, other: ID)
    requires
        t.wf(),
        t.swap_remove_defined(id, replacement),
        t.is_live(id),
        t.is_current(replacement),
    ensures
        t.swap_remove_spec(id, replacement).1 is Ok,
        t.swap_remove_spec(id, replacement).0.wf(),
        t.swap_remove_spec(id, replacement).0.is_stale(id),
        !t.swap_remove_spec(id, replacement).0.is_current(id),
        t.swap_remove_spec(id, replacement).0.is_live(replacement),
        t.swap_remove_spec(id, replacement).0.lookup(replacement) == t.lookup(id),
        other.0 != id.0 && other.0 != replacement.0 ==> {
            &&& t.swap_remove_spec(id, replacement).0.is_live(other) == t.is_live(other)
            &&& t.swap_remove_spec(id, replacement).0.is_current(other) == t.is_current(other)
            &&& t.swap_remove_spec(id, replacement).0.lookup(other) == t.lookup(other)
        },
{
    let released = t.release(id.0 as int);
    lemma_release_wf(t, id.0 as int);
    let r = replacement.0 as int;
    lemma_count_empty_update(released.slots, r, (released.slots[r].0, t.slots[id.0 as int].1));
}

/// `swap_remove(id, replacement)` succeeds exactly when `id` is live and the
/// replacement is current; in particular a stale or unknown replacement makes
/// it fail, and a failure leaves the table as it was.
pub proof fn lemma_swap_remove_succeeds_exactly_on_live_and_current(t: IdTable, id: ID, replacement: ID)
    ensures
        t.swap_remove_spec(id, replacement).1 is Ok <==> (t.is_live(id) && t.is_current(replacement)),
        !t.is_current(replacement) ==> t.swap_remove_spec(id, replacement).1 is Err
            && t.swap_remove_spec(id, replacement).0 == t,
        !t.is_live(id) ==> t.swap_remove_spec(id, replacement).1 is Err
            && t.swap_remove_spec(id, replacement).0 == t,
{
}

/// A failed `swap_remove` changes nothing.
pub proof fn lemma_swap_remove_failure_changes_nothing(t: IdTable, id: ID, replacement: ID)
    ensures
        t.swap_remove_spec(id, replacement).1 is Err ==> t.swap_remove_spec(id, replacement).0 == t,
{
}

/// No operation drops a slot or turns a time stamp back, so a stale handle
/// never becomes valid again.
pub proof fn lemma_stale_stays_stale(t: IdTable, pos: usize, id: ID, replacement: ID, stale: ID)
    requires
        t.wf(),
        t.slots.len() < usize::MAX,
        t.remove_defined(id),
        t.swap_remove_defined(id, replacement),
        t.is_stale(stale),
    ensures
        t.grown_into(t.new_spec(pos).0),
        t.new_spec(pos).0.is_stale(stale),
        t.grown_into(t.remove_spec(id).0),
        t.remove_spec(id).0.is_stale(stale),
        t.grown_into(t.swap_remove_spec(id, replacement).0),
        t.swap_remove_spec(id, replacement).0.is_stale(stale),
{
    lemma_new_shape(t, pos);
}

impl IdTable {
    /// `ids[k]` is a live handle bound to position `k`, for every `k`, and no
    /// two of them share a slot: the table tracks a list of `ids.len()`
    /// objects.
    pub open spec fn tracks(self, ids: Seq<ID>) -> bool {
        &&& forall|k: int| 0 <= k < ids.len() ==> self.is_live(#[trigger] ids[k])
        &&& forall|k: int| 0 <= k < ids.len() ==> self.lookup(#[trigger] ids[k]) == Ok::<usize, IDError>(k as usize)
        &&& forall|j: int, k: int| 0 <= j < ids.len() && 0 <= k < ids.len() && j != k ==> ids[j].0 != ids[k].0
    }
}

/// A handle is valid exactly when looking it up succeeds.
pub proof fn lemma_valid_iff_lookup_succeeds(t: IdTable, id: ID)
    requires
        t.lookup_defined(id),
    ensures
        t.is_current(id) <==> t.lookup(id) is Ok,
{
}

/// Tracking a list: pushing an object and binding a new handle to its
/// position keeps every handle resolving to its object.
pub proof fn lemma_tracks_push(t: IdTable, ids: Seq<ID>)
    requires
        t.wf(),
        t.slots.len() < usize::MAX,
        t.tracks(ids),
        ids.len() < usize::MAX,
    ensures
        t.new_spec(ids.len() as usize).0.tracks(ids.push(t.new_spec(ids.len() as usize).1)),
{
    let pos = ids.len() as usize;
    let (t2, id) = t.new_spec(pos);
    lemma_new_shape(t, pos);
    let ids2 = ids.push(id);
    assert forall|k: int| 0 <= k < ids.len() implies ids[k].0 != id.0 by {
        assert(t.is_live(ids[k]));
    }
    assert forall|k: int| 0 <= k < ids2.len() implies t2.is_live(#[trigger] ids2[k]) && t2.lookup(ids2[k])
        == Ok::<usize, IDError>(k as usize) by {
        if k < ids.len() {
            assert(ids2[k] == ids[k]);
            assert(t.is_live(ids[k]));
            assert(t.lookup(ids[k]) == Ok::<usize, IDError>(k as usize));
        }
    }
    assert forall|j: int, k: int| 0 <= j < ids2.len() && 0 <= k < ids2.len() && j != k implies ids2[j].0
        != ids2[k].0 by {
        if j < ids.len() && k < ids.len() {
            assert(ids[j].0 != ids[k].0);
        }
    }
}

/// Tracking a list: removing the last object and the handle bound to it
/// keeps every other handle resolving to its object.
pub proof fn lemma_tracks_remove_last(t: IdTable, ids: Seq<ID>)
    requires
        t.wf(),
        t.tracks(ids),
        ids.len() > 0,
        t.remove_defined(ids.last()),
    ensures
        t.remove_spec(ids.last()).1 is Ok,
        t.remove_spec(ids.last()).0.tracks(ids.drop_last()),
{
    let n = ids.len() - 1;
    assert(t.is_live(ids[n]));
    let ids2 = ids.drop_last();
    assert forall|k: int| 0 <= k < ids2.len() implies t.remove_spec(ids.last()).0.is_live(#[trigger] ids2[k])
        && t.remove_spec(ids.last()).0.lookup(ids2[k]) == Ok::<usize, IDError>(k as usize) by {
        assert(ids2[k] == ids[k]);
        assert(ids[k].0 != ids[n].0);
        assert(t.is_live(ids[k]));
        assert(t.lookup(ids[k]) == Ok::<usize, IDError>(k as usize));
        lemma_remove_keeps_other_bindings(t, ids.last(), ids[k]);
    }
    assert forall|j: int, k: int| 0 <= j < ids2.len() && 0 <= k < ids2.len() && j != k implies ids2[j].0
        != ids2[k].0 by {
        assert(ids[j].0 != ids[k].0);
    }
}

/// Tracking a list: a `swap_remove` of object `i` on the list (the last
/// object moves into place `i`) paired with `swap_remove` of its handle with
/// the last object's handle keeps every remaining handle resolving to its
/// object; the last handle now resolves to `i`.
pub proof fn lemma_tracks_swap_remove(t: IdTable, ids: Seq<ID>, i: int)
    requires
        t.wf(),
        t.tracks(ids),
        0 <= i < ids.len() - 1,
        t.slots[ids[i].0 as int].0 < usize::MAX,
    ensures
        t.swap_remove_defined(ids[i], ids.last()),
        t.swap_remove_spec(ids[i], ids.last()).1 is Ok,
        t.swap_remove_spec(ids[i], ids.last()).0.tracks(ids.update(i, ids.last()).drop_last()),
{
    let n = ids.len() - 1;
    let id = ids[i];
    let rep = ids[n];
    assert(t.is_live(id));
    assert(t.is_live(rep));
    assert(id.0 != rep.0);
    let t2 = t.swap_remove_spec(id, rep).0;
    let ids2 = ids.update(i, rep).drop_last();
    assert(t.lookup(id) == Ok::<usize, IDError>(i as usize));
    assert forall|k: int| 0 <= k < ids2.len() implies t2.is_live(#[trigger] ids2[k]) && t2.lookup(ids2[k])
        == Ok::<usize, IDError>(k as usize) by {
        if k == i {
            lemma_swap_remove_moves_binding(t, id, rep, rep);
        } else {
            assert(ids2[k] == ids[k]);
            assert(ids[k].0 != id.0);
            assert(ids[k].0 != rep.0);
            assert(t.is_live(ids[k]));
            assert(t.lookup(ids[k]) == Ok::<usize, IDError>(k as usize));
            lemma_swap_remove_moves_binding(t, id, rep, ids[k]);
        }
    }
    assert forall|j: int, k: int| 0 <= j < ids2.len() && 0 <= k < ids2.len() && j != k implies ids2[j].0
        != ids2[k].0 by {
        let oj = if j == i { n } else { j };
        let ok = if k == i { n } else { k };
        assert(ids2[j] == ids[oj]);
        assert(ids2[k] == ids[ok]);
        assert(ids[oj].0 != ids[ok].0);
    }
}

/// A new handle differs from every handle that is live or stale on the
/// table it is issued from, so from every handle issued before.
pub proof fn lemma_new_differs_from_known(t: IdTable, pos: usize, id: ID)
    requires
        t.wf(),
        t.slots.len() < usize::MAX,
        t.is_live(id) || t.is_stale(id),
    ensures
        t.new_spec(pos).1 != id,
{
    lemma_new_shape(t, pos);
}

/// One call on a manager: `new(pos)`, `remove(id)` or `swap_remove(id, replacement)`.
pub enum IdOp {
    New(usize),
    Remove(ID),
    SwapRemove(ID, ID),
}

impl IdTable {
    /// The call `op` returns on this table.
    pub open spec fn step_defined(self, op: IdOp) -> bool {
        match op {
            IdOp::New(_) => self.slots.len() < usize::MAX,
            IdOp::Remove(id) => self.remove_defined(id),
            IdOp::SwapRemove(id, replacement) => self.swap_remove_defined(id, replacement),
        }
    }

    /// The table after the call `op`.
    pub open spec fn step(self, op: IdOp) -> IdTable {
        match op {
            IdOp::New(pos) => self.new_spec(pos).0,
            IdOp::Remove(id) => self.remove_spec(id).0,
            IdOp::SwapRemove(id, replacement) => self.swap_remove_spec(id, replacement).0,
        }
    }

    /// The handle the call `op` issues, if it is a `new`.
    pub open spec fn issued_by(self, op: IdOp) -> Option<ID> {
        match op {
            IdOp::New(pos) => Some(self.new_spec(pos).1),
            _ => None,
        }
    }

    /// `op` is a successful `remove(id)` or `swap_remove(id, _)`.
    pub open spec fn removes(self, op: IdOp, id: ID) -> bool {
        match op {
            IdOp::New(_) => false,
            IdOp::Remove(x) => x == id && self.remove_spec(x).1 is Ok,
            IdOp::SwapRemove(x, replacement) => x == id && self.swap_remove_spec(x, replacement).1 is Ok,
        }
    }

    /// Every handle of `handles` is live or stale on this table.
    pub open spec fn accounts_for(self, handles: Seq<ID>) -> bool {
        forall|k: int| 0 <= k < handles.len() ==> self.is_live(#[trigger] handles[k]) || self.is_stale(handles[k])
    }
}

/// The table after the calls `ops`, made in order on `t`.
pub open spec fn run(t: IdTable, ops: Seq<IdOp>) -> IdTable
    decreases ops.len(),
{
    if ops.len() == 0 {
        t
    } else {
        run(t, ops.drop_last()).step(ops.last())
    }
}

/// Each call of `ops` returns on the table it is made on.
pub open spec fn runs_defined(t: IdTable, ops: Seq<IdOp>) -> bool {
    forall|k: int| 0 <= k < ops.len() ==> #[trigger] run(t, ops.take(k)).step_defined(ops[k])
}

/// The handles that the `new` calls of `ops` issue, in order.
pub open spec fn issued(t: IdTable, ops: Seq<IdOp>) -> Seq<ID>
    decreases ops.len(),
{
    if ops.len() == 0 {
        Seq::empty()
    } else {
        let before = issued(t, ops.drop_last());
        match run(t, ops.drop_last()).issued_by(ops.last()) {
            Some(id) => before.push(id),
            None => before,
        }
    }
}

proof fn lemma_step_wf(t: IdTable, op: IdOp)
    requires
        t.wf(),
        t.step_defined(op),
    ensures
        t.step(op).wf(),
{
    match op {
        IdOp::New(pos) => lemma_new_shape(t, pos),
        IdOp::Remove(id) => lemma_remove_invalidates(t, id),
        IdOp::SwapRemove(id, replacement) => {
            if t.swap_remove_spec(id, replacement).1 is Ok {
                lemma_swap_remove_moves_binding(t, id, replacement, id);
            }
        },
    }
}

/// One call keeps a live handle live unless it removes that handle, turns it
/// stale if it does, and keeps a stale handle stale.
proof fn lemma_step_handle(t: IdTable, op: IdOp, h: ID)
    requires
        t.wf(),
        t.step_defined(op),
    ensures
        t.is_live(h) && !t.removes(op, h) ==> t.step(op).is_live(h),
        t.is_live(h) && t.removes(op, h) ==> t.step(op).is_stale(h),
        t.is_stale(h) ==> t.step(op).is_stale(h),
{
    match op {
        IdOp::New(pos) => {
            lemma_new_shape(t, pos);
        },
        IdOp::Remove(x) => {
            if t.remove_spec(x).1 is Ok {
                lemma_remove_invalidates(t, x);
                if h.0 != x.0 {
                    lemma_remove_keeps_other_bindings(t, x, h);
                }
            }
        },
        IdOp::SwapRemove(x, r) => {
            if t.swap_remove_spec(x, r).1 is Ok {
                lemma_swap_remove_moves_binding(t, x, r, h);
            }
        },
    }
}

/// One call keeps every handle of `handles` live or stale, and a handle it
/// issues is none of them.
proof fn lemma_step_accounts(t: IdTable, op: IdOp, handles: Seq<ID>)
    requires
        t.wf(),
        t.step_defined(op),
        t.accounts_for(handles),
    ensures
        t.step(op).accounts_for(handles),
        t.issued_by(op) matches Some(id) ==> !handles.contains(id) && t.step(op).is_live(id),
{
    assert forall|k: int| 0 <= k < handles.len() implies t.step(op).is_live(#[trigger] handles[k])
        || t.step(op).is_stale(handles[k]) by {
        lemma_step_handle(t, op, handles[k]);
    }
    if let IdOp::New(pos) = op {
        lemma_new_shape(t, pos);
        let id = t.new_spec(pos).1;
        if handles.contains(id) {
            let k = choose|k: int| 0 <= k < handles.len() && handles[k] == id;
            assert(t.is_live(handles[k]) || t.is_stale(handles[k]));
        }
    }
}

proof fn lemma_runs_defined_prefix(t: IdTable, ops: Seq<IdOp>)
    requires
        runs_defined(t, ops),
        ops.len() > 0,
    ensures
        runs_defined(t, ops.drop_last()),
        run(t, ops.drop_last()).step_defined(ops.last()),
{
    let n = ops.len() - 1;
    assert forall|k: int| 0 <= k < n implies #[trigger] run(t, ops.drop_last().take(k)).step_defined(
        ops.drop_last()[k],
    ) by {
        assert(ops.drop_last().take(k) =~= ops.take(k));
        assert(run(t, ops.take(k)).step_defined(ops[k]));
    }
    assert(ops.take(n) =~= ops.drop_last());
    assert(run(t, ops.take(n)).step_defined(ops[n]));
}

/// Every handle a manager issues differs from every handle issued before it,
/// including those removed since: over any run of calls that return, the
/// handles already known (`earlier`, each live or stale) and those the run's
/// `new` calls issue are all distinct, and each is live or stale at the end.
pub proof fn lemma_issued_handles_are_distinct(t: IdTable, ops: Seq<IdOp>, earlier: Seq<ID>)
    requires
        t.wf(),
        t.accounts_for(earlier),
        earlier.no_duplicates(),
        runs_defined(t, ops),
    ensures
        run(t, ops).wf(),
        run(t, ops).accounts_for(earlier + issued(t, ops)),
        (earlier + issued(t, ops)).no_duplicates(),
    decreases ops.len(),
{
    if ops.len() == 0 {
        assert(earlier + issued(t, ops) =~= earlier);
    } else {
        let before = ops.drop_last();
        lemma_runs_defined_prefix(t, ops);
        lemma_issued_handles_are_distinct(t, before, earlier);
        let s = run(t, before);
        let op = ops.last();
        let known = earlier + issued(t, before);
        lemma_step_wf(s, op);
        lemma_step_accounts(s, op, known);
        match s.issued_by(op) {
            Some(id) => {
                assert(earlier + issued(t, ops) =~= known.push(id));
                assert(s.step(op).accounts_for(known.push(id))) by {
                    assert forall|k: int| 0 <= k < known.push(id).len() implies s.step(op).is_live(
                        #[trigger] known.push(id)[k],
                    ) || s.step(op).is_stale(known.push(id)[k]) by {
                        if k < known.len() {
                            assert(known.push(id)[k] == known[k]);
                        }
                    }
                }
                assert(known.push(id).no_duplicates()) by {
                    assert forall|a: int, b: int|
                        0 <= a < known.push(id).len() && 0 <= b < known.push(id).len() && a != b implies known.push(
                        id,
                    )[a] != known.push(id)[b] by {
                        if a == known.len() {
                            assert(known.contains(known[b]));
                        } else if b == known.len() {
                            assert(known.contains(known[a]));
                        }
                    }
                }
            },
            None => {
                assert(earlier + issued(t, ops) =~= known);
            },
        }
    }
}

/// A live handle stays valid through a run of calls until the first call
/// that removes it (`remove` or `swap_remove` succeeding on it), and is
/// invalid after that call, for ever.
pub proof fn lemma_valid_until_removed(t: IdTable, ops: Seq<IdOp>, id: ID)
    requires
        t.wf(),
        t.is_live(id),
        runs_defined(t, ops),
    ensures
        run(t, ops).wf(),
        run(t, ops).is_current(id) <==> forall|k: int|
            0 <= k < ops.len() ==> !#[trigger] run(t, ops.take(k)).removes(ops[k], id),
        run(t, ops).is_current(id) ==> run(t, ops).is_live(id),
        !run(t, ops).is_current(id) ==> run(t, ops).is_stale(id),
    decreases ops.len(),
{
    if ops.len() == 0 {
    } else {
        let n = ops.len() - 1;
        let before = ops.drop_last();
        lemma_runs_defined_prefix(t, ops);
        lemma_valid_until_removed(t, before, id);
        let s = run(t, before);
        let op = ops.last();
        lemma_step_wf(s, op);
        lemma_step_handle(s, op, id);
        assert(ops.take(n) =~= before);
        assert forall|k: int| 0 <= k < n implies run(t, ops.take(k)).removes(ops[k], id) == run(
            t,
            before.take(k),
        ).removes(before[k], id) by {
            assert(before.take(k) =~= ops.take(k));
        }
        if run(t, ops).is_current(id) {
            assert forall|k: int| 0 <= k < ops.len() implies !#[trigger] run(t, ops.take(k)).removes(ops[k], id) by {
                if k < n {
                    assert(before.take(k) =~= ops.take(k));
                    assert(!run(t, before.take(k)).removes(before[k], id));
                }
            }
        } else {
            if s.is_current(id) {
                assert(run(t, ops.take(n)).removes(ops[n], id));
            } else {
                let k = choose|k: int| 0 <= k < n && #[trigger] run(t, before.take(k)).removes(before[k], id);
                assert(before.take(k) =~= ops.take(k));
                assert(run(t, ops.take(k)).removes(ops[k], id));
            }
        }
    }
}

} // verus!
