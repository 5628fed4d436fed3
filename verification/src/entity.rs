//! A set of entities addressed by generational ids.
//!
//! Each slot of the set holds a generation counter and a payload. Removing an entity frees its
//! slot; inserting reuses the first free slot and bumps its generation, so an id handed out
//! before the removal never resolves again.
use vstd::prelude::*;

use std::marker::PhantomData;
use vstd::std_specs::cmp::PartialEqSpecImpl;

verus! {

/// The payload of a slot: either an entity or a free slot.
#[derive(Clone, Debug)]
pub enum EntryPayload<T> {
    /// Contains an entity.
    Occupied(T),
    /// A free slot, pointing to the next free slot.
    Free(Option<usize>),
}

impl<T> EntryPayload<T> {
    /// Whether the slot holds an entity.
    pub fn is_occupied(&self) -> (r: bool)
        ensures
            r == (*self is Occupied),
    {
        matches!(self, EntryPayload::Occupied(_))
    }

    /// Whether the slot is free.
    pub fn is_free(&self) -> (r: bool)
        ensures
            r == (*self is Free),
    {
        matches!(self, EntryPayload::Free(_))
    }

    /// The entity of an occupied slot.
    pub fn as_ref_unwrap(&self) -> (r: &T)
        requires
            *self is Occupied,
        ensures
            *r == self->Occupied_0,
    {
        match self {
            EntryPayload::Occupied(payload) => payload,
            EntryPayload::Free(_) => vstd::pervasive::unreached(),
        }
    }

    /// A mutable reference to the entity of an occupied slot.
    pub fn as_mut_unwrap(&mut self) -> (r: &mut T)
        requires
            *old(self) is Occupied,
        ensures
            *r == old(self)->Occupied_0,
            *final(self) == EntryPayload::Occupied(*final(r)),
    {
        match self {
            EntryPayload::Occupied(payload) => payload,
            EntryPayload::Free(_) => vstd::pervasive::unreached(),
        }
    }

    /// A mutable reference to the entity, if the slot is occupied.
    pub fn as_mut(&mut self) -> (r: Option<&mut T>)
        ensures
            r is Some <==> *old(self) is Occupied,
            r matches Some(x) ==> *x == old(self)->Occupied_0 && *final(self)
                == EntryPayload::Occupied(*final(x)),
            r is None ==> *final(self) == *old(self),
    {
        match self {
            EntryPayload::Occupied(payload) => Some(payload),
            EntryPayload::Free(_) => None,
        }
    }

    /// Takes the entity out, leaving a free slot that points nowhere.
    pub fn take(&mut self) -> (r: Option<T>)
        ensures
            *final(self) == EntryPayload::<T>::Free(None),
            r == payload_value(*old(self)),
    {
        let mut swap = EntryPayload::Free(None);
        std::mem::swap(self, &mut swap);
        match swap {
            EntryPayload::Occupied(payload) => Some(payload),
            EntryPayload::Free(_) => None,
        }
    }
}

/// The entity of a payload, if any.
pub open spec fn payload_value<T>(p: EntryPayload<T>) -> Option<T> {
    match p {
        EntryPayload::Occupied(v) => Some(v),
        EntryPayload::Free(_) => None,
    }
}

/// A slot of an entity set: a generation counter and a payload.
#[derive(Clone, Debug)]
pub struct EntityEntry<T> {
    pub gen: u32,
    pub payload: EntryPayload<T>,
}

impl<T> EntityEntry<T> {
    /// A fresh slot of generation 0 holding `payload`.
    pub fn new(payload: T) -> (r: Self)
        ensures
            r.gen == 0,
            r.payload == EntryPayload::Occupied(payload),
    {
        EntityEntry { gen: 0, payload: EntryPayload::Occupied(payload) }
    }
}

/// A borrowed entity of an occupied slot.
pub struct RefOption<'a, T>(pub &'a T);

impl<'a, T> RefOption<'a, T> {
    /// Borrows the entity of a slot, or `None` if the slot is free.
    pub fn new(val: &'a EntryPayload<T>) -> (r: Option<Self>)
        ensures
            r is Some <==> *val is Occupied,
            r matches Some(b) ==> *b.0 == val->Occupied_0,
    {
        match val {
            EntryPayload::Occupied(x) => Some(RefOption(x)),
            EntryPayload::Free(_) => None,
        }
    }

    /// The borrowed entity.
    pub fn get(&self) -> (r: &'a T)
        ensures
            *r == *self.0,
    {
        self.0
    }
}

/// A mutably borrowed entity of an occupied slot.
pub struct RefMutOption<'a, T>(pub &'a mut T);

impl<'a, T> RefMutOption<'a, T> {
    /// Mutably borrows the entity of a slot, or `None` if the slot is free.
    pub fn new(val: &'a mut EntryPayload<T>) -> (r: Option<Self>)
        ensures
            r is Some <==> *old(val) is Occupied,
            r matches Some(b) ==> *b.0 == old(val)->Occupied_0 && *final(val)
                == EntryPayload::Occupied(*final(b.0)),
            r is None ==> *final(val) == *old(val),
    {
        match val {
            EntryPayload::Occupied(x) => Some(RefMutOption(x)),
            EntryPayload::Free(_) => None,
        }
    }
}

/// An id of an entity in an entity set: the slot index and the generation of the slot when
/// the entity was inserted.
#[derive(Debug)]
pub struct EntityId<T> {
    id: u32,
    gen: u32,
    _ph: PhantomData<T>,
}

impl<T> Clone for EntityId<T> {
    fn clone(&self) -> (r: Self)
        ensures
            r == *self,
    {
        EntityId { id: self.id, gen: self.gen, _ph: PhantomData }
    }
}

impl<T> Copy for EntityId<T> {

}

impl<T> PartialEq for EntityId<T> {
    fn eq(&self, other: &Self) -> (r: bool) {
        self.id == other.id && self.gen == other.gen
    }
}

impl<T> PartialEqSpecImpl for EntityId<T> {
    open spec fn obeys_eq_spec() -> bool {
        true
    }

    open spec fn eq_spec(&self, other: &Self) -> bool {
        self.index() == other.index() && self.generation() == other.generation()
    }
}

impl<T> Eq for EntityId<T> {

}

impl<T> EntityId<T> {
    /// The slot index of the id.
    pub closed spec fn index(self) -> u32 {
        self.id
    }

    /// The generation of the id.
    pub closed spec fn generation(self) -> u32 {
        self.gen
    }

    /// An id of slot `id` at generation `gen`.
    pub fn new(id: u32, gen: u32) -> (r: Self)
        ensures
            r.index() == id,
            r.generation() == gen,
    {
        EntityId { id, gen, _ph: PhantomData }
    }

    /// The slot index of the id.
    pub fn get_index(&self) -> (r: u32)
        ensures
            r == self.index(),
    {
        self.id
    }

    /// The generation of the id.
    pub fn get_generation(&self) -> (r: u32)
        ensures
            r == self.generation(),
    {
        self.gen
    }
}

/// Two ids are equal exactly when their indices and generations are.
pub proof fn lemma_id_ext<T>(a: EntityId<T>, b: EntityId<T>)
    requires
        a.index() == b.index(),
        a.generation() == b.generation(),
    ensures
        a == b,
{
    assert(a.id == b.id && a.gen == b.gen && a._ph == b._ph);
}

/// The number of occupied slots.
pub open spec fn count_occupied<T>(s: Seq<EntityEntry<T>>) -> nat
    decreases s.len(),
{
    if s.len() == 0 {
        0
    } else {
        count_occupied(s.drop_last()) + if s.last().payload is Occupied {
            1nat
        } else {
            0nat
        }
    }
}

/// The entities of the occupied slots, in slot order.
pub open spec fn occupied_values<T>(s: Seq<EntityEntry<T>>) -> Seq<T>
    decreases s.len(),
{
    if s.len() == 0 {
        Seq::empty()
    } else {
        let rest = occupied_values(s.drop_last());
        match s.last().payload {
            EntryPayload::Occupied(v) => rest.push(v),
            EntryPayload::Free(_) => rest,
        }
    }
}

/// The entity an id refers to: the slot must exist, hold the id's generation and be
/// occupied.
pub open spec fn lookup<T>(slots: Seq<EntityEntry<T>>, id: EntityId<T>) -> Option<T> {
    let i = id.index() as int;
    if i < slots.len() && slots[i].gen == id.generation() {
        payload_value(slots[i].payload)
    } else {
        None
    }
}

/// The index of the first free slot at or after `i`, or the number of slots when there is
/// none.
pub open spec fn first_free_from<T>(s: Seq<EntityEntry<T>>, i: int) -> nat
    decreases s.len() - i,
{
    if i < 0 {
        first_free_from(s, 0)
    } else if i >= s.len() {
        s.len()
    } else if s[i].payload is Free {
        i as nat
    } else {
        first_free_from(s, i + 1)
    }
}

/// The slot an insertion goes to: the first free slot, or a new slot at the end.
pub open spec fn insert_index<T>(s: Seq<EntityEntry<T>>) -> nat {
    first_free_from(s, 0)
}

/// The generation an insertion gives its slot: one more than the free slot's, or 0 for a new
/// slot.
pub open spec fn insert_gen<T>(s: Seq<EntityEntry<T>>) -> u32 {
    let i = insert_index(s) as int;
    if i < s.len() {
        (s[i].gen + 1) as u32
    } else {
        0
    }
}

/// The slots after inserting each of `vals`, one after the other.
pub open spec fn slots_after_inserts<T>(s: Seq<EntityEntry<T>>, vals: Seq<T>) -> Seq<EntityEntry<T>>
    decreases vals.len(),
{
    if vals.len() == 0 {
        s
    } else {
        slots_after_insert(slots_after_inserts(s, vals.drop_last()), vals.last())
    }
}

/// The slots after inserting `val`.
pub open spec fn slots_after_insert<T>(s: Seq<EntityEntry<T>>, val: T) -> Seq<EntityEntry<T>> {
    let i = insert_index(s) as int;
    let entry = EntityEntry { gen: insert_gen(s), payload: EntryPayload::Occupied(val) };
    if i < s.len() {
        s.update(i, entry)
    } else {
        s.push(entry)
    }
}

/// The slots after removing the entity of `id`: a slot holding the id's generation is freed,
/// anything else is left alone.
pub open spec fn slots_after_remove<T>(s: Seq<EntityEntry<T>>, id: EntityId<T>) -> Seq<
    EntityEntry<T>,
> {
    let i = id.index() as int;
    if i < s.len() && s[i].gen == id.generation() {
        s.update(i, EntityEntry { gen: s[i].gen, payload: EntryPayload::Free(None) })
    } else {
        s
    }
}

/// Insertion is possible without overflowing an id: the slot count fits in an id and no free
/// slot has reached the last generation.
pub open spec fn slots_can_insert<T>(s: Seq<EntityEntry<T>>) -> bool {
    &&& s.len() < u32::MAX
    &&& forall|i: int| 0 <= i < s.len() && s[i].payload is Free ==> s[i].gen < u32::MAX
}

proof fn lemma_first_free_skip<T>(s: Seq<EntityEntry<T>>, k: int, i: int)
    requires
        0 <= k <= i,
        forall|j: int| k <= j < i ==> j < s.len() && s[j].payload is Occupied,
    ensures
        first_free_from(s, k) == first_free_from(s, i),
    decreases i - k,
{
    if k < i {
        lemma_first_free_skip(s, k + 1, i);
    }
}

proof fn lemma_first_free_bounds<T>(s: Seq<EntityEntry<T>>, k: int)
    requires
        0 <= k,
    ensures
        first_free_from(s, k) <= s.len(),
        first_free_from(s, k) < s.len() ==> s[first_free_from(s, k) as int].payload is Free,
        forall|j: int| k <= j < first_free_from(s, k) ==> s[j].payload is Occupied,
    decreases s.len() - k,
{
    if k < s.len() && !(s[k].payload is Free) {
        lemma_first_free_bounds(s, k + 1);
    }
}

pub proof fn lemma_count_le_len<T>(s: Seq<EntityEntry<T>>)
    ensures
        count_occupied(s) <= s.len(),
        occupied_values(s).len() == count_occupied(s),
    decreases s.len(),
{
    if s.len() > 0 {
        lemma_count_le_len(s.drop_last());
    }
}

/// A set of entities with generational ids.
#[derive(Debug)]
pub struct EntitySet<T> {
    v: Vec<EntityEntry<T>>,
    /// Index of the start of the free list.
    free: Option<usize>,
}

impl<T: Clone> Clone for EntitySet<T> {
    fn clone(&self) -> (r: Self) {
        EntitySet { v: self.v.clone(), free: self.free }
    }
}

impl<T> EntitySet<T> {
    /// The slots of the set.
    pub closed spec fn slots(&self) -> Seq<EntityEntry<T>> {
        self.v@
    }

    /// The head of the free list.
    pub closed spec fn free_head(&self) -> Option<usize> {
        self.free
    }

    /// The entity an id refers to: the slot must exist, hold the id's generation and be
    /// occupied.
    pub open spec fn spec_get(&self, id: EntityId<T>) -> Option<T> {
        lookup(self.slots(), id)
    }

    /// Insertion is possible without overflowing an id: the slot count fits in an id and no
    /// free slot has reached the last generation.
    pub open spec fn can_insert(&self) -> bool {
        slots_can_insert(self.slots())
    }

    /// An empty set.
    pub fn new() -> (r: Self)
        ensures
            r.slots() == Seq::<EntityEntry<T>>::empty(),
            r.free_head() == None::<usize>,
    {
        EntitySet { v: Vec::new(), free: None }
    }

    /// A set holding the given entities in order, at generation 0.
    pub fn from_vec(items: Vec<T>) -> (r: Self)
        requires
            items@.len() <= u32::MAX,
        ensures
            r.slots().len() == items@.len(),
            forall|i: int|
                0 <= i < items@.len() ==> r.slots()[i] == (EntityEntry {
                    gen: 0,
                    payload: EntryPayload::Occupied(items@[i]),
                }),
            r.free_head() == None::<usize>,
    {
        let mut items = items;
        let ghost orig = items@;
        let mut rev: Vec<T> = Vec::new();
        while items.len() > 0
            invariant
                rev@.len() + items@.len() == orig.len(),
                items@ == orig.take(items@.len() as int),
                forall|k: int|
                    0 <= k < rev@.len() ==> rev@[k] == orig[orig.len() - 1 - k],
            decreases items@.len(),
        {
            let x = items.pop().unwrap();
            rev.push(x);
        }
        let mut v: Vec<EntityEntry<T>> = Vec::new();
        while rev.len() > 0
            invariant
                v@.len() + rev@.len() == orig.len(),
                forall|k: int|
                    0 <= k < rev@.len() ==> rev@[k] == orig[orig.len() - 1 - k],
                forall|k: int|
                    0 <= k < v@.len() ==> v@[k] == (EntityEntry {
                        gen: 0,
                        payload: EntryPayload::Occupied(orig[k]),
                    }),
            decreases rev@.len(),
        {
            let x = rev.pop().unwrap();
            v.push(EntityEntry::new(x));
        }
        EntitySet { v, free: None }
    }

    /// The number of entities in the set (not the number of slots).
    pub fn len(&self) -> (r: usize)
        ensures
            r == count_occupied(self.slots()),
    {
        let mut count: usize = 0;
        let mut i: usize = 0;
        while i < self.v.len()
            invariant
                i <= self.v@.len(),
                count == count_occupied(self.v@.take(i as int)),
            decreases self.v@.len() - i,
        {
            proof {
                assert(self.v@.take(i + 1).drop_last() =~= self.v@.take(i as int));
                lemma_count_le_len(self.v@.take(i as int));
            }
            if self.v[i].payload.is_occupied() {
                count = count + 1;
            }
            i = i + 1;
        }
        proof {
            assert(self.v@.take(i as int) =~= self.v@);
        }
        count
    }

    /// The number of slots, occupied or free.
    pub fn num_slots(&self) -> (r: usize)
        ensures
            r == self.slots().len(),
    {
        self.v.len()
    }

    /// Borrows every entity, in slot order.
    pub fn iter(&self) -> (r: Vec<&T>)
        ensures
            r@.len() == occupied_values(self.slots()).len(),
            forall|k: int| 0 <= k < r@.len() ==> *r@[k] == occupied_values(self.slots())[k],
    {
        let mut out: Vec<&T> = Vec::new();
        let mut i: usize = 0;
        while i < self.v.len()
            invariant
                i <= self.v@.len(),
                out@.len() == occupied_values(self.v@.take(i as int)).len(),
                forall|k: int|
                    0 <= k < out@.len() ==> *out@[k] == occupied_values(self.v@.take(i as int))[k],
            decreases self.v@.len() - i,
        {
            proof {
                assert(self.v@.take(i + 1).drop_last() =~= self.v@.take(i as int));
            }
            match &self.v[i].payload {
                EntryPayload::Occupied(x) => {
                    out.push(x);
                },
                EntryPayload::Free(_) => {},
            }
            i = i + 1;
        }
        proof {
            assert(self.v@.take(i as int) =~= self.v@);
        }
        out
    }

    /// Borrows every entity with its id, in slot order.
    pub fn items(&self) -> (r: Vec<(EntityId<T>, &T)>)
        requires
            self.slots().len() <= u32::MAX,
        ensures
            r@.len() == count_occupied(self.slots()),
            forall|k: int|
                0 <= k < r@.len() ==> self.spec_get(r@[k].0) == Some(*r@[k].1),
            forall|k: int|
                0 <= k < r@.len() ==> *r@[k].1 == occupied_values(self.slots())[k],
            forall|k1: int, k2: int|
                0 <= k1 < k2 < r@.len() ==> r@[k1].0.index() < r@[k2].0.index(),
    {
        let mut out: Vec<(EntityId<T>, &T)> = Vec::new();
        let mut i: usize = 0;
        while i < self.v.len()
            invariant
                i <= self.v@.len(),
                self.v@.len() <= u32::MAX,
                out@.len() == occupied_values(self.v@.take(i as int)).len(),
                out@.len() == count_occupied(self.v@.take(i as int)),
                forall|k: int|
                    0 <= k < out@.len() ==> *out@[k].1 == occupied_values(self.v@.take(i as int))[k],
                forall|k: int|
                    0 <= k < out@.len() ==> self.spec_get(out@[k].0) == Some(*out@[k].1),
                forall|k: int| 0 <= k < out@.len() ==> out@[k].0.index() < i,
                forall|k1: int, k2: int|
                    0 <= k1 < k2 < out@.len() ==> out@[k1].0.index() < out@[k2].0.index(),
            decreases self.v@.len() - i,
        {
            proof {
                assert(self.v@.take(i + 1).drop_last() =~= self.v@.take(i as int));
                lemma_count_le_len(self.v@.take(i as int));
                lemma_count_le_len(self.v@.take(i + 1));
            }
            match &self.v[i].payload {
                EntryPayload::Occupied(x) => {
                    let id = EntityId::new(i as u32, self.v[i].gen);
                    out.push((id, x));
                },
                EntryPayload::Free(_) => {},
            }
            i = i + 1;
        }
        proof {
            assert(self.v@.take(i as int) =~= self.v@);
        }
        out
    }

    /// Inserts an entity into the first free slot, bumping its generation, or into a new slot
    /// of generation 0 when no slot is free.
    pub fn insert(&mut self, val: T) -> (r: EntityId<T>)
        requires
            old(self).can_insert(),
        ensures
            r.index() == insert_index(old(self).slots()),
            r.generation() == insert_gen(old(self).slots()),
            final(self).slots() == slots_after_insert(old(self).slots(), val),
            final(self).free_head() == old(self).free_head(),
    {
        let mut i: usize = 0;
        while i < self.v.len()
            invariant
                i <= self.v@.len(),
                self.v@ == old(self).v@,
                self.free == old(self).free,
                old(self).can_insert(),
                forall|j: int| 0 <= j < i ==> self.v@[j].payload is Occupied,
            decreases self.v@.len() - i,
        {
            if self.v[i].payload.is_free() {
                proof {
                    lemma_first_free_skip(self.v@, 0, i as int);
                }
                let gen = self.v[i].gen + 1;
                self.v.set(i, EntityEntry { gen, payload: EntryPayload::Occupied(val) });
                return EntityId::new(i as u32, gen);
            }
            i = i + 1;
        }
        proof {
            lemma_first_free_skip(self.v@, 0, i as int);
        }
        self.v.push(EntityEntry::new(val));
        EntityId::new((self.v.len() - 1) as u32, 0)
    }

    /// Removes the entity an id refers to, if the slot exists and holds the id's generation.
    /// The slot is left free with its generation unchanged.
    pub fn remove(&mut self, id: EntityId<T>) -> (r: Option<T>)
        ensures
            r == old(self).spec_get(id),
            final(self).slots() == slots_after_remove(old(self).slots(), id),
            final(self).free_head() == old(self).free_head(),
    {
        let idx = id.id as usize;
        if idx < self.v.len() && self.v[idx].gen == id.gen {
            let mut entry = EntityEntry { gen: id.gen, payload: EntryPayload::Free(None) };
            self.v.set_and_swap(idx, &mut entry);
            match entry.payload {
                EntryPayload::Occupied(x) => Some(x),
                EntryPayload::Free(_) => None,
            }
        } else {
            None
        }
    }

    /// Borrows the entity an id refers to.
    pub fn get(&self, id: EntityId<T>) -> (r: Option<&T>)
        ensures
            r is Some <==> self.spec_get(id) is Some,
            r matches Some(x) ==> self.spec_get(id) == Some(*x),
    {
        let idx = id.id as usize;
        if idx < self.v.len() && self.v[idx].gen == id.gen {
            match &self.v[idx].payload {
                EntryPayload::Occupied(x) => Some(x),
                EntryPayload::Free(_) => None,
            }
        } else {
            None
        }
    }

    /// Keeps the entities for which `f` holds and frees the slots of the others. A freed slot
    /// keeps its generation and points to the head of the free list.
    pub fn retain<F: Fn(&T) -> bool>(&mut self, f: F)
        requires
            forall|x: &T| call_requires(f, (x,)),
        ensures
            final(self).slots().len() == old(self).slots().len(),
            final(self).free_head() == old(self).free_head(),
            forall|i: int|
                0 <= i < old(self).slots().len() ==> retained_slot(
                    &f,
                    old(self).slots()[i],
                    final(self).slots()[i],
                    old(self).free_head(),
                ),
    {
        let n = self.v.len();
        let mut i: usize = 0;
        while i < n
            invariant
                n == self.v@.len(),
                n == old(self).v@.len(),
                i <= n,
                self.free == old(self).free,
                forall|x: &T| call_requires(f, (x,)),
                forall|k: int|
                    0 <= k < i ==> retained_slot(&f, old(self).v@[k], self.v@[k], old(self).free),
                forall|k: int| i <= k < n ==> self.v@[k] == old(self).v@[k],
            decreases n - i,
        {
            let keep = match &self.v[i].payload {
                EntryPayload::Occupied(x) => f(x),
                EntryPayload::Free(_) => true,
            };
            if !keep {
                let gen = self.v[i].gen;
                self.v.set(i, EntityEntry { gen, payload: EntryPayload::Free(self.free) });
            }
            i = i + 1;
        }
    }

    /// Frees slot `idx`, keeping its generation, and returns its entity, if any.
    pub fn remove_at(&mut self, idx: usize) -> (r: Option<T>)
        requires
            idx < old(self).slots().len(),
        ensures
            r == payload_value(old(self).slots()[idx as int].payload),
            final(self).slots() == old(self).slots().update(
                idx as int,
                EntityEntry { gen: old(self).slots()[idx as int].gen, payload: EntryPayload::Free(None) },
            ),
            final(self).free_head() == old(self).free_head(),
    {
        let gen = self.v[idx].gen;
        let mut entry = EntityEntry { gen, payload: EntryPayload::Free(None) };
        self.v.set_and_swap(idx, &mut entry);
        match entry.payload {
            EntryPayload::Occupied(x) => Some(x),
            EntryPayload::Free(_) => None,
        }
    }

    /// Drops the entity in slot `idx` the way `retain` does: the slot is freed, keeps its
    /// generation and points to the head of the free list.
    pub fn drop_at(&mut self, idx: usize)
        requires
            idx < old(self).slots().len(),
        ensures
            final(self).slots() == old(self).slots().update(
                idx as int,
                EntityEntry { gen: old(self).slots()[idx as int].gen, payload: EntryPayload::Free(old(self).free_head()) },
            ),
            final(self).free_head() == old(self).free_head(),
    {
        let gen = self.v[idx].gen;
        self.v.set(idx, EntityEntry { gen, payload: EntryPayload::Free(self.free) });
    }

    /// Puts an entity into slot `idx`, keeping the slot's generation.
    pub fn put_at(&mut self, idx: usize, val: T)
        requires
            idx < old(self).slots().len(),
        ensures
            final(self).slots() == old(self).slots().update(
                idx as int,
                EntityEntry { gen: old(self).slots()[idx as int].gen, payload: EntryPayload::Occupied(val) },
            ),
            final(self).free_head() == old(self).free_head(),
    {
        let gen = self.v[idx].gen;
        self.v.set(idx, EntityEntry { gen, payload: EntryPayload::Occupied(val) });
    }

    /// Borrows the entity in slot `idx`, without checking any generation.
    pub fn get_at(&self, idx: usize) -> (r: Option<&T>)
        ensures
            r is Some <==> (idx < self.slots().len() && self.slots()[idx as int].payload is Occupied),
            r matches Some(x) ==> self.slots()[idx as int].payload == EntryPayload::Occupied(*x),
    {
        if idx < self.v.len() {
            match &self.v[idx].payload {
                EntryPayload::Occupied(x) => Some(x),
                EntryPayload::Free(_) => None,
            }
        } else {
            None
        }
    }

    /// The generation of slot `idx`.
    pub fn slot_gen(&self, idx: usize) -> (r: u32)
        requires
            idx < self.slots().len(),
        ensures
            r == self.slots()[idx as int].gen,
    {
        self.v[idx].gen
    }

    /// Mutably borrows the entity in slot `idx`, without checking any generation.
    pub fn get_mut_at(&mut self, idx: usize) -> (r: Option<&mut T>)
        ensures
            r is Some <==> (idx < old(self).slots().len() && old(self).slots()[idx as int].payload is Occupied),
            r matches Some(x) ==> {
                &&& old(self).slots()[idx as int].payload == EntryPayload::Occupied(*x)
                &&& final(self).slots() == old(self).slots().update(
                    idx as int,
                    EntityEntry {
                        gen: old(self).slots()[idx as int].gen,
                        payload: EntryPayload::Occupied(*final(x)),
                    },
                )
            },
            r is None ==> final(self).slots() == old(self).slots(),
            final(self).free_head() == old(self).free_head(),
    {
        if idx < self.v.len() {
            let entry = &mut self.v[idx];
            match &mut entry.payload {
                EntryPayload::Occupied(x) => Some(x),
                EntryPayload::Free(_) => None,
            }
        } else {
            None
        }
    }

    /// Mutably borrows the entity an id refers to.
    pub fn get_mut(&mut self, id: EntityId<T>) -> (r: Option<&mut T>)
        ensures
            r is Some <==> old(self).spec_get(id) is Some,
            r matches Some(x) ==> {
                &&& old(self).spec_get(id) == Some(*x)
                &&& final(self).slots() == old(self).slots().update(
                    id.index() as int,
                    EntityEntry { gen: id.generation(), payload: EntryPayload::Occupied(*final(x)) },
                )
            },
            r is None ==> final(self).slots() == old(self).slots(),
            final(self).free_head() == old(self).free_head(),
    {
        let idx = id.id as usize;
        if idx < self.v.len() && self.v[idx].gen == id.gen {
            let entry = &mut self.v[idx];
            match &mut entry.payload {
                EntryPayload::Occupied(x) => Some(x),
                EntryPayload::Free(_) => None,
            }
        } else {
            None
        }
    }
}


/// What `retain` makes of one slot: a free slot stays as it is; an occupied slot stays when
/// `f` returned true for its entity, and is freed (keeping its generation) when `f` returned
/// false.
pub open spec fn retained_slot<T, F: Fn(&T) -> bool>(
    f: &F,
    before: EntityEntry<T>,
    after: EntityEntry<T>,
    free: Option<usize>,
) -> bool {
    match before.payload {
        EntryPayload::Free(_) => after == before,
        EntryPayload::Occupied(v) => {
            ||| after == before && call_ensures(*f, (&v,), true)
            ||| after == (EntityEntry { gen: before.gen, payload: EntryPayload::<T>::Free(free) })
                && call_ensures(*f, (&v,), false)
        },
    }
}

/// Whether a slot holds an entity, as a count.
pub open spec fn occ<T>(e: EntityEntry<T>) -> nat {
    if e.payload is Occupied {
        1
    } else {
        0
    }
}

proof fn lemma_count_update<T>(s: Seq<EntityEntry<T>>, i: int, e: EntityEntry<T>)
    requires
        0 <= i < s.len(),
    ensures
        count_occupied(s.update(i, e)) + occ(s[i]) == count_occupied(s) + occ(e),
    decreases s.len(),
{
    let u = s.update(i, e);
    if i == s.len() - 1 {
        assert(u.drop_last() =~= s.drop_last());
    } else {
        assert(u.drop_last() =~= s.drop_last().update(i, e));
        lemma_count_update(s.drop_last(), i, e);
    }
}

/// Law (insert, then get): the id an insertion hands out resolves to the inserted entity, and
/// every other id resolves exactly as before.
pub proof fn lemma_insert_then_get<T>(s: Seq<EntityEntry<T>>, val: T, id: EntityId<T>)
    requires
        slots_can_insert(s),
    ensures
        id.index() == insert_index(s) && id.generation() == insert_gen(s) ==> lookup(
            slots_after_insert(s, val),
            id,
        ) == Some(val),
        !(id.index() == insert_index(s) && id.generation() == insert_gen(s)) ==> lookup(
            slots_after_insert(s, val),
            id,
        ) == lookup(s, id),
{
    lemma_first_free_bounds(s, 0);
}

/// An id that resolves keeps resolving to the same entity through an insertion: the insertion
/// goes to a free slot or a new one, never to an occupied slot.
pub proof fn lemma_insert_keeps_resolved<T>(s: Seq<EntityEntry<T>>, val: T, id: EntityId<T>)
    requires
        slots_can_insert(s),
        lookup(s, id) is Some,
    ensures
        lookup(slots_after_insert(s, val), id) == lookup(s, id),
        !(id.index() == insert_index(s) && id.generation() == insert_gen(s)),
{
    lemma_first_free_bounds(s, 0);
}

/// An insertion leaves every occupied slot as it was.
pub proof fn lemma_insert_keeps_occupied<T>(s: Seq<EntityEntry<T>>, val: T)
    ensures
        slots_after_insert(s, val).len() >= s.len(),
        forall|i: int|
            0 <= i < s.len() && s[i].payload is Occupied ==> #[trigger] slots_after_insert(s, val)[i] == s[i],
{
    lemma_first_free_bounds(s, 0);
}

/// After an insertion at most the slot it went to is new; the slot count grows by at most one.
pub proof fn lemma_insert_len<T>(s: Seq<EntityEntry<T>>, val: T)
    ensures
        slots_after_insert(s, val).len() <= s.len() + 1,
        slots_after_insert(s, val).len() >= s.len(),
        forall|i: int|
            0 <= i < s.len() && s[i].payload is Free && i != insert_index(s) ==> #[trigger] slots_after_insert(s, val)[i]
                == s[i],
        insert_index(s) < slots_after_insert(s, val).len(),
        slots_after_insert(s, val)[insert_index(s) as int].payload is Occupied,
{
    lemma_first_free_bounds(s, 0);
}

/// Law (remove, then get): after removing an id it resolves to nothing, and every other id
/// resolves exactly as before. What the removal returns is what the id resolved to.
pub proof fn lemma_remove_then_get<T>(s: Seq<EntityEntry<T>>, id: EntityId<T>, other: EntityId<T>)
    ensures
        lookup(slots_after_remove(s, id), id) is None,
        !(other.index() == id.index() && other.generation() == id.generation()) ==> lookup(
            slots_after_remove(s, other),
            id,
        ) == lookup(s, id),
{
}

/// An id that was handed out for a slot whose entity is gone: the slot exists, has reached at
/// least the id's generation, and the id resolves to nothing.
pub open spec fn is_stale<T>(s: Seq<EntityEntry<T>>, id: EntityId<T>) -> bool {
    &&& (id.index() as int) < s.len()
    &&& id.generation() <= s[id.index() as int].gen
    &&& lookup(s, id) is None
}

/// Law (generational ids): removing an entity makes its id stale, and a stale id stays stale
/// through every later insertion and removal, so it never resolves to a newer entity.
pub proof fn lemma_stale_ids_stay_stale<T>(
    s: Seq<EntityEntry<T>>,
    id: EntityId<T>,
    other: EntityId<T>,
    val: T,
)
    ensures
        lookup(s, id) is Some ==> is_stale(slots_after_remove(s, id), id),
        is_stale(s, id) ==> is_stale(slots_after_remove(s, other), id),
        is_stale(s, id) && slots_can_insert(s) ==> is_stale(slots_after_insert(s, val), id),
{
    lemma_first_free_bounds(s, 0);
}

/// Law (entity count): an insertion adds one entity; removing an id that resolves takes one
/// away, and removing one that does not changes nothing.
pub proof fn lemma_len_after_insert_remove<T>(s: Seq<EntityEntry<T>>, val: T, id: EntityId<T>)
    ensures
        slots_can_insert(s) ==> count_occupied(slots_after_insert(s, val)) == count_occupied(s)
            + 1,
        lookup(s, id) is Some ==> count_occupied(slots_after_remove(s, id)) + 1 == count_occupied(
            s,
        ),
        lookup(s, id) is None ==> count_occupied(slots_after_remove(s, id)) == count_occupied(s),
{
    lemma_first_free_bounds(s, 0);
    let i = insert_index(s) as int;
    let e = EntityEntry { gen: insert_gen(s), payload: EntryPayload::Occupied(val) };
    if i < s.len() {
        lemma_count_update(s, i, e);
    } else {
        assert(s.push(e).drop_last() =~= s);
    }
    let j = id.index() as int;
    if j < s.len() && s[j].gen == id.generation() {
        lemma_count_update(s, j, EntityEntry { gen: s[j].gen, payload: EntryPayload::Free(None) });
    }
}

/// An insertion into slots that can take one keeps them able to take another while the slot
/// count stays below the limit.
pub proof fn lemma_insert_keeps_insertable<T>(s: Seq<EntityEntry<T>>, v: T)
    requires
        slots_can_insert(s),
        s.len() + 1 < u32::MAX,
    ensures
        slots_can_insert(slots_after_insert(s, v)),
        slots_after_insert(s, v).len() <= s.len() + 1,
{
    lemma_insert_len(s, v);
    let s1 = slots_after_insert(s, v);
    assert forall|i: int| 0 <= i < s1.len() && s1[i].payload is Free implies s1[i].gen < u32::MAX by {
        if i >= s.len() {
            assert(i == insert_index(s));
        } else if i == insert_index(s) {
        } else {
            assert(s1[i] == s[i]);
        }
    }
}

} // verus!
