//! Typed handles and the generational arena that resolves them.
use core::marker::PhantomData;
use vstd::prelude::*;

verus! {

/// An opaque reference to one slot of a [`ResourcePool`]: the slot's index and
/// the generation the slot had when the handle was issued.
#[derive(Debug)]
pub struct ResourceId<T> {
    pub index: usize,
    pub generation: u64,
    pub marker: PhantomData<T>,
}

impl<T> Clone for ResourceId<T> {
    fn clone(&self) -> (r: Self)
        ensures
            r == *self,
    {
        ResourceId { index: self.index, generation: self.generation, marker: PhantomData }
    }
}

impl<T> Copy for ResourceId<T> {

}

impl<T> PartialEq for ResourceId<T> {
    fn eq(&self, other: &Self) -> (r: bool) {
        self.index == other.index && self.generation == other.generation
    }
}

impl<T> vstd::std_specs::cmp::PartialEqSpecImpl for ResourceId<T> {
    open spec fn obeys_eq_spec() -> bool {
        true
    }

    open spec fn eq_spec(&self, other: &Self) -> bool {
        self.index == other.index && self.generation == other.generation
    }
}

impl<T> ResourceId<T> {
    /// Builds the handle for slot `index` at `generation`.
    pub fn new(index: usize, generation: u64) -> (r: Self)
        ensures
            r.index == index,
            r.generation == generation,
    {
        ResourceId { index, generation, marker: PhantomData }
    }

    /// Index of the slot this handle refers to.
    pub fn index(&self) -> (r: usize)
        ensures
            r == self.index,
    {
        self.index
    }

    /// Generation of the slot at the time the handle was issued.
    pub fn generation(&self) -> (r: u64)
        ensures
            r == self.generation,
    {
        self.generation
    }
}


/// One entry of an arena: the payload, if any, and how often the entry has
/// changed hands.
pub struct Slot<T> {
    pub generation: u64,
    pub value: Option<T>,
}

/// Mathematical model of a [`ResourcePool`]: its slots in index order, and
/// the indices waiting for reuse, the next one to be taken last.
#[verifier::ext_equal]
pub struct PoolModel<T> {
    pub slots: Seq<Slot<T>>,
    pub vacant: Seq<usize>,
}

impl<T> PoolModel<T> {
    /// The model of a pool that has never held anything.
    pub open spec fn empty() -> Self {
        PoolModel { slots: Seq::empty(), vacant: Seq::empty() }
    }

    /// A slot can be handed out again when it is empty and its generation can
    /// still grow.
    pub open spec fn reusable(self, i: int) -> bool {
        0 <= i < self.slots.len() && self.slots[i].value.is_none() && self.slots[i].generation
            < u64::MAX
    }

    /// The slots can be indexed by a machine word, and the reuse list holds
    /// every reusable slot exactly once and nothing else.
    pub open spec fn wf(self) -> bool {
        &&& self.slots.len() <= usize::MAX
        &&& forall|k: int| 0 <= k < self.vacant.len() ==> self.reusable(#[trigger] self.vacant[k] as int)
        &&& forall|j: int, k: int|
            0 <= j < k < self.vacant.len() ==> self.vacant[j] != self.vacant[k]
        &&& forall|i: int| #[trigger]
            self.reusable(i) ==> exists|k: int| 0 <= k < self.vacant.len() && self.vacant[k] == i
    }

    /// The handle resolves: its slot exists, is occupied, and carries the
    /// handle's generation.
    pub open spec fn contains(self, id: ResourceId<T>) -> bool {
        &&& id.index < self.slots.len()
        &&& self.slots[id.index as int].generation == id.generation
        &&& self.slots[id.index as int].value.is_some()
    }

    /// The payload a resolving handle refers to.
    pub open spec fn value(self, id: ResourceId<T>) -> T
        recommends
            self.contains(id),
    {
        self.slots[id.index as int].value.unwrap()
    }

    /// The handle was issued by this pool at some point and no longer
    /// resolves.
    pub open spec fn expired(self, id: ResourceId<T>) -> bool {
        &&& id.index < self.slots.len()
        &&& id.generation <= self.slots[id.index as int].generation
        &&& !self.contains(id)
    }

    /// The handle that the next insertion returns: the most recently vacated
    /// reusable slot at its next generation, or a fresh slot at generation 1.
    pub open spec fn next_id(self) -> ResourceId<T> {
        if self.vacant.len() > 0 {
            let i = self.vacant.last();
            ResourceId {
                index: i,
                generation: (self.slots[i as int].generation + 1) as u64,
                marker: PhantomData,
            }
        } else {
            ResourceId { index: self.slots.len() as usize, generation: 1, marker: PhantomData }
        }
    }

    /// The pool after inserting `value`.
    pub open spec fn insert(self, value: T) -> Self {
        let id = self.next_id();
        let slot = Slot { generation: id.generation, value: Some(value) };
        if self.vacant.len() > 0 {
            PoolModel {
                slots: self.slots.update(id.index as int, slot),
                vacant: self.vacant.drop_last(),
            }
        } else {
            PoolModel { slots: self.slots.push(slot), vacant: self.vacant }
        }
    }

    /// The pool after removing `id`: unchanged when the handle does not
    /// resolve; otherwise the slot is emptied and its generation moves on. A
    /// slot whose generation has reached the largest value is never reused.
    pub open spec fn remove(self, id: ResourceId<T>) -> Self {
        if !self.contains(id) {
            self
        } else {
            let generation = if id.generation < u64::MAX {
                (id.generation + 1) as u64
            } else {
                id.generation
            };
            PoolModel {
                slots: self.slots.update(id.index as int, Slot { generation, value: None }),
                vacant: if generation < u64::MAX {
                    self.vacant.push(id.index)
                } else {
                    self.vacant
                },
            }
        }
    }

    /// The pool after the payload behind `id` was replaced by `value`.
    pub open spec fn replace(self, id: ResourceId<T>, value: T) -> Self {
        if self.contains(id) {
            PoolModel {
                slots: self.slots.update(
                    id.index as int,
                    Slot { generation: id.generation, value: Some(value) },
                ),
                vacant: self.vacant,
            }
        } else {
            self
        }
    }
}

/// A generational arena for one resource type. Payloads are reached only
/// through the handles that [`ResourcePool::insert`] returns.
pub struct ResourcePool<T> {
    slots: Vec<Slot<T>>,
    free: Vec<usize>,
}

impl<T> View for ResourcePool<T> {
    type V = PoolModel<T>;

    closed spec fn view(&self) -> PoolModel<T> {
        PoolModel { slots: self.slots@, vacant: self.free@ }
    }
}

impl<T> ResourcePool<T> {
    /// The invariant every pool operation expects and keeps.
    pub open spec fn wf(&self) -> bool {
        self@.wf()
    }

    /// Creates a pool without slots.
    pub fn new() -> (pool: Self)
        ensures
            pool.wf(),
            pool@ == PoolModel::<T>::empty(),
    {
        let pool = ResourcePool { slots: Vec::new(), free: Vec::new() };
        assert(pool@ =~= PoolModel::<T>::empty());
        pool
    }

    /// Number of slots ever created, occupied or not.
    pub fn capacity(&self) -> (n: usize)
        ensures
            n == self@.slots.len(),
    {
        self.slots.len()
    }

    /// Stores `value` and returns the handle that resolves to it. A vacated
    /// slot is reused when there is one; its generation moves on, so handles
    /// issued for earlier occupants stay unresolved.
    pub fn insert(&mut self, value: T) -> (id: ResourceId<T>)
        requires
            old(self).wf(),
        ensures
            final(self).wf(),
            id == old(self)@.next_id(),
            final(self)@ == old(self)@.insert(value),
            final(self)@.contains(id),
            final(self)@.value(id) == value,
    {
        let ghost before = self@;
        let id = match self.free.pop() {
            Some(index) => {
                assert(before.reusable(before.vacant[before.vacant.len() - 1] as int));
                let generation = self.slots[index].generation + 1;
                self.slots[index] = Slot { generation, value: Some(value) };
                ResourceId::new(index, generation)
            },
            None => {
                let index = self.slots.len();
                self.slots.push(Slot { generation: 1, value: Some(value) });
                ResourceId::new(index, 1)
            },
        };
        proof {
            assert(self.slots.len() == self@.slots.len());
            assert(self@ =~= before.insert(value));
            lemma_insert_wf(before, value);
        }
        id
    }

    /// The payload behind `id`, or `None` when the handle does not resolve.
    pub fn get(&self, id: &ResourceId<T>) -> (r: Option<&T>)
        ensures
            r.is_some() == self@.contains(*id),
            r.is_some() ==> *r.unwrap() == self@.value(*id),
    {
        if id.index < self.slots.len() {
            let slot = &self.slots[id.index];
            if slot.generation == id.generation {
                slot.value.as_ref()
            } else {
                None
            }
        } else {
            None
        }
    }

    /// Whether `id` resolves.
    pub fn contains(&self, id: &ResourceId<T>) -> (r: bool)
        ensures
            r == self@.contains(*id),
    {
        self.get(id).is_some()
    }

    /// Mutable access to the payload behind `id`, or `None` when the handle
    /// does not resolve. Whatever the caller writes replaces the payload and
    /// nothing else.
    pub fn get_mut(&mut self, id: &ResourceId<T>) -> (r: Option<&mut T>)
        requires
            old(self).wf(),
        ensures
            r.is_some() == old(self)@.contains(*id),
            r.is_some() ==> *r.unwrap() == old(self)@.value(*id),
            r.is_some() ==> final(self)@ =~= old(self)@.replace(*id, *final(r.unwrap())),
            r.is_none() ==> final(self)@ == old(self)@,
            final(self).wf(),
    {
        proof {
            assert forall|v: T| (#[trigger] old(self)@.replace(*id, v)).wf() by {
                lemma_replace_wf(old(self)@, *id, v);
            }
        }
        if id.index < self.slots.len() && self.slots[id.index].generation == id.generation
            && self.slots[id.index].value.is_some() {
            self.slots[id.index].value.as_mut()
        } else {
            None
        }
    }

    /// Takes the payload behind `id` out of the pool. The slot's generation
    /// moves on, so `id` and every copy of it stop resolving for good. Returns
    /// `None`, and changes nothing, when the handle does not resolve.
    pub fn remove(&mut self, id: &ResourceId<T>) -> (r: Option<T>)
        requires
            old(self).wf(),
        ensures
            final(self).wf(),
            final(self)@ == old(self)@.remove(*id),
            r == if old(self)@.contains(*id) {
                Some(old(self)@.value(*id))
            } else {
                None
            },
            !final(self)@.contains(*id),
    {
        let ghost before = self@;
        if id.index >= self.slots.len() {
            return None;
        }
        if self.slots[id.index].generation != id.generation || self.slots[id.index].value.is_none() {
            return None;
        }
        let value = self.slots[id.index].value.take();
        if id.generation < u64::MAX {
            self.slots[id.index].generation = id.generation + 1;
            if id.generation + 1 < u64::MAX {
                self.free.push(id.index);
            }
        }
        proof {
            assert(self@ =~= before.remove(*id));
            lemma_remove_wf(before, *id);
        }
        value
    }
}

/// Insertion keeps the reuse list exact.
pub proof fn lemma_insert_wf<T>(pool: PoolModel<T>, value: T)
    requires
        pool.wf(),
        pool.vacant.len() == 0 ==> pool.slots.len() < usize::MAX,
    ensures
        pool.insert(value).wf(),
        pool.insert(value).contains(pool.next_id()),
        pool.insert(value).value(pool.next_id()) == value,
{
    let after = pool.insert(value);
    if pool.vacant.len() > 0 {
        let last = pool.vacant.len() - 1;
        assert(pool.reusable(pool.vacant[last] as int));
        assert forall|k: int| 0 <= k < after.vacant.len() implies after.reusable(
            #[trigger] after.vacant[k] as int,
        ) by {
            assert(pool.reusable(pool.vacant[k] as int));
            assert(pool.vacant[k] != pool.vacant[last]);
        }
        assert forall|i: int| #[trigger] after.reusable(i) implies exists|k: int|
            0 <= k < after.vacant.len() && after.vacant[k] == i by {
            assert(pool.reusable(i));
            let k = choose|k: int| 0 <= k < pool.vacant.len() && pool.vacant[k] == i;
            assert(k != last);
            assert(after.vacant[k] == i);
        }
    } else {
        assert forall|i: int| #[trigger] after.reusable(i) implies exists|k: int|
            0 <= k < after.vacant.len() && after.vacant[k] == i by {
            assert(pool.reusable(i));
        }
    }
}

/// Replacing a payload keeps the reuse list exact.
pub proof fn lemma_replace_wf<T>(pool: PoolModel<T>, id: ResourceId<T>, value: T)
    requires
        pool.wf(),
    ensures
        pool.replace(id, value).wf(),
{
    let after = pool.replace(id, value);
    if pool.contains(id) {
        assert forall|k: int| 0 <= k < after.vacant.len() implies after.reusable(
            #[trigger] after.vacant[k] as int,
        ) by {
            assert(pool.reusable(pool.vacant[k] as int));
        }
        assert forall|i: int| #[trigger] after.reusable(i) implies exists|k: int|
            0 <= k < after.vacant.len() && after.vacant[k] == i by {
            assert(i != id.index);
            assert(after.slots[i] == pool.slots[i]);
            assert(pool.reusable(i));
            let k = choose|k: int| 0 <= k < pool.vacant.len() && pool.vacant[k] == i;
            assert(after.vacant[k] == i);
        }
    }
}

/// Removal keeps the reuse list exact.
pub proof fn lemma_remove_wf<T>(pool: PoolModel<T>, id: ResourceId<T>)
    requires
        pool.wf(),
    ensures
        pool.remove(id).wf(),
        !pool.remove(id).contains(id),
{
    let after = pool.remove(id);
    if pool.contains(id) {
        assert(!pool.reusable(id.index as int));
        assert forall|k: int| 0 <= k < after.vacant.len() implies after.reusable(
            #[trigger] after.vacant[k] as int,
        ) by {
            if k < pool.vacant.len() {
                assert(pool.reusable(pool.vacant[k] as int));
            }
        }
        assert forall|j: int, k: int| 0 <= j < k < after.vacant.len() implies after.vacant[j]
            != after.vacant[k] by {
            assert(pool.reusable(pool.vacant[j] as int));
        }
        assert forall|i: int| #[trigger] after.reusable(i) implies exists|k: int|
            0 <= k < after.vacant.len() && after.vacant[k] == i by {
            if i == id.index {
                assert(after.vacant[pool.vacant.len() as int] == i);
            } else {
                assert(pool.reusable(i));
                let k = choose|k: int| 0 <= k < pool.vacant.len() && pool.vacant[k] == i;
                assert(after.vacant[k] == i);
            }
        }
    }
}

/// A handle that has stopped resolving never resolves again, whatever is
/// inserted afterwards: a reused slot carries a later generation.
pub proof fn lemma_insert_keeps_expired<T>(pool: PoolModel<T>, value: T, id: ResourceId<T>)
    requires
        pool.wf(),
        pool.expired(id),
    ensures
        pool.insert(value).expired(id),
        !pool.insert(value).contains(id),
{
    if pool.vacant.len() > 0 {
        assert(pool.reusable(pool.vacant[pool.vacant.len() - 1] as int));
    }
}

/// A handle that has stopped resolving stays so across any removal.
pub proof fn lemma_remove_keeps_expired<T>(
    pool: PoolModel<T>,
    removed: ResourceId<T>,
    id: ResourceId<T>,
)
    requires
        pool.wf(),
        pool.expired(id),
    ensures
        pool.remove(removed).expired(id),
        !pool.remove(removed).contains(id),
{
}

/// A handle that has stopped resolving stays so when another payload is
/// overwritten in place.
pub proof fn lemma_replace_keeps_expired<T>(
    pool: PoolModel<T>,
    target: ResourceId<T>,
    value: T,
    id: ResourceId<T>,
)
    requires
        pool.wf(),
        pool.expired(id),
    ensures
        pool.replace(target, value).expired(id),
        !pool.replace(target, value).contains(id),
{
}

/// Removing a resolving handle expires it, and leaves every other resolving
/// handle with its payload.
pub proof fn lemma_remove_expires<T>(pool: PoolModel<T>, id: ResourceId<T>, other: ResourceId<T>)
    requires
        pool.wf(),
        pool.contains(id),
    ensures
        pool.remove(id).expired(id),
        other != id && pool.contains(other) ==> pool.remove(id).contains(other) && pool.remove(
            id,
        ).value(other) == pool.value(other),
        pool.remove(id).contains(other) ==> pool.contains(other) && other != id,
{
}

/// After a handle is removed, the next insertion takes over its slot at a
/// different generation when the slot can be reused, and the removed handle
/// still does not resolve; in particular it never resolves to the new payload.
pub proof fn lemma_reuse_changes_generation<T>(pool: PoolModel<T>, id: ResourceId<T>, value: T)
    requires
        pool.wf(),
        pool.contains(id),
    ensures
        !pool.remove(id).contains(id),
        !pool.remove(id).insert(value).contains(id),
        pool.remove(id).next_id().index == id.index ==> pool.remove(id).next_id().generation
            != id.generation,
        id.generation < u64::MAX - 1 ==> pool.remove(id).next_id().index == id.index
            && pool.remove(id).next_id().generation == id.generation + 2,
{
    let removed = pool.remove(id);
    lemma_remove_wf(pool, id);
    lemma_remove_expires(pool, id, id);
    lemma_insert_keeps_expired(removed, value, id);
    if removed.vacant.len() > 0 {
        assert(removed.reusable(removed.vacant[removed.vacant.len() - 1] as int));
    }
}

/// Insertion leaves every handle that resolved before with its payload.
pub proof fn lemma_insert_keeps_others<T>(pool: PoolModel<T>, value: T, other: ResourceId<T>)
    requires
        pool.wf(),
        pool.contains(other),
    ensures
        pool.insert(value).contains(other),
        pool.insert(value).value(other) == pool.value(other),
        other != pool.next_id(),
{
    if pool.vacant.len() > 0 {
        assert(pool.reusable(pool.vacant[pool.vacant.len() - 1] as int));
    }
}

} // verus!
