//! Inventories: counts of items by type.
use vstd::prelude::*;

use crate::items::{item_index, ItemType};

verus! {

/// Entries sorted by strictly increasing item index (so no item type occurs twice).
pub open spec fn sorted_entries(s: Seq<(ItemType, usize)>) -> bool {
    forall|i: int, j: int| 0 <= i < j < s.len() ==> item_index(s[i].0) < item_index(s[j].0)
}

/// The map that a sequence of entries stands for.
pub open spec fn entries_map(s: Seq<(ItemType, usize)>) -> Map<ItemType, usize>
    decreases s.len(),
{
    if s.len() == 0 {
        Map::empty()
    } else {
        entries_map(s.drop_last()).insert(s.last().0, s.last().1)
    }
}

/// The sum of the counts of the entries.
pub open spec fn entries_sum(s: Seq<(ItemType, usize)>) -> nat
    decreases s.len(),
{
    if s.len() == 0 {
        0
    } else {
        entries_sum(s.drop_last()) + s.last().1 as nat
    }
}

proof fn lemma_entries_map_contains(s: Seq<(ItemType, usize)>)
    requires
        sorted_entries(s),
    ensures
        forall|k: ItemType| #[trigger]
            entries_map(s).contains_key(k) <==> exists|i: int| 0 <= i < s.len() && s[i].0 == k,
        forall|i: int| 0 <= i < s.len() ==> #[trigger] entries_map(s)[s[i].0] == s[i].1,
    decreases s.len(),
{
    if s.len() > 0 {
        let d = s.drop_last();
        lemma_entries_map_contains(d);
        assert forall|k: ItemType| #[trigger]
            entries_map(s).contains_key(k) <==> exists|i: int| 0 <= i < s.len() && s[i].0 == k by {
            if entries_map(s).contains_key(k) {
                if k == s.last().0 {
                    assert(s[s.len() - 1].0 == k);
                } else {
                    assert(entries_map(d).contains_key(k));
                    let i = choose|i: int| 0 <= i < d.len() && d[i].0 == k;
                    assert(s[i] == d[i]);
                }
            }
            if exists|i: int| 0 <= i < s.len() && s[i].0 == k {
                let i = choose|i: int| 0 <= i < s.len() && s[i].0 == k;
                if i < d.len() {
                    assert(s[i] == d[i]);
                    assert(exists|i: int| 0 <= i < d.len() && d[i].0 == k);
                    assert(entries_map(d).contains_key(k));
                }
            }
        }
        assert forall|i: int| 0 <= i < s.len() implies #[trigger] entries_map(s)[s[i].0] == s[i].1 by {
            if i < d.len() {
                assert(s[i] == d[i]);
                assert(item_index(s[i].0) < item_index(s[s.len() - 1].0));
                assert(entries_map(d)[d[i].0] == d[i].1);
            }
        }
    }
}

/// Counts of items by type, iterated in the order of item types.
#[derive(Debug)]
pub struct CountableInventory {
    entries: Vec<(ItemType, usize)>,
}

impl Clone for CountableInventory {
    fn clone(&self) -> (r: Self)
        ensures
            r.entries() == self.entries(),
            r@ == self@,
            r.wf() == self.wf(),
    {
        let mut out: Vec<(ItemType, usize)> = Vec::new();
        let mut i: usize = 0;
        while i < self.entries.len()
            invariant
                i <= self.entries@.len(),
                out@ == self.entries@.take(i as int),
            decreases self.entries@.len() - i,
        {
            let (t, n) = self.entries[i];
            out.push((t, n));
            proof {
                assert(out@ =~= self.entries@.take(i + 1));
            }
            i = i + 1;
        }
        proof {
            assert(self.entries@.take(i as int) =~= self.entries@);
        }
        CountableInventory { entries: out }
    }
}

impl View for CountableInventory {
    type V = Map<ItemType, usize>;

    closed spec fn view(&self) -> Map<ItemType, usize> {
        entries_map(self.entries@)
    }
}

impl CountableInventory {
    /// The entries in item order.
    pub closed spec fn entries(&self) -> Seq<(ItemType, usize)> {
        self.entries@
    }

    /// The entries are sorted by item type without repetition.
    pub closed spec fn wf(&self) -> bool {
        sorted_entries(self.entries@)
    }

    /// The sum of all counts.
    pub closed spec fn total(&self) -> nat {
        entries_sum(self.entries@)
    }

    proof fn lemma_view(&self)
        requires
            self.wf(),
        ensures
            forall|k: ItemType| #[trigger]
                self@.contains_key(k) <==> exists|i: int|
                    0 <= i < self.entries@.len() && self.entries@[i].0 == k,
            forall|i: int| 0 <= i < self.entries@.len() ==> #[trigger] self@[self.entries@[i].0] == self.entries@[i].1,
    {
        lemma_entries_map_contains(self.entries@);
    }

    /// An empty inventory.
    pub fn new() -> (r: Self)
        ensures
            r.wf(),
            r@ == Map::<ItemType, usize>::empty(),
    {
        CountableInventory { entries: Vec::new() }
    }

    /// Where `ty` is, or would be inserted: the number of entries with a smaller item index.
    fn position(&self, ty: ItemType) -> (r: usize)
        requires
            self.wf(),
        ensures
            r <= self.entries@.len(),
            forall|i: int| 0 <= i < r ==> item_index(#[trigger] self.entries@[i].0) < item_index(ty),
            forall|i: int|
                r <= i < self.entries@.len() ==> item_index(ty) <= item_index(#[trigger] self.entries@[i].0),
    {
        let t = ty.index();
        let mut i: usize = 0;
        while i < self.entries.len() && self.entries[i].0.index() < t
            invariant
                i <= self.entries@.len(),
                t == item_index(ty),
                sorted_entries(self.entries@),
                forall|k: int| 0 <= k < i ==> item_index(#[trigger] self.entries@[k].0) < item_index(ty),
            decreases self.entries@.len() - i,
        {
            i = i + 1;
        }
        i
    }

    /// The count of `ty`, or `None` when the type has no entry.
    pub fn get(&self, ty: &ItemType) -> (r: Option<&usize>)
        requires
            self.wf(),
        ensures
            r is Some <==> self@.contains_key(*ty),
            r matches Some(v) ==> *v == self@[*ty],
    {
        proof {
            self.lemma_view();
        }
        let i = self.position(*ty);
        if i < self.entries.len() && self.entries[i].0 == *ty {
            Some(&self.entries[i].1)
        } else {
            proof {
                if self@.contains_key(*ty) {
                    let j = choose|j: int| 0 <= j < self.entries@.len() && self.entries@[j].0 == *ty;
                    assert(item_index(self.entries@[j].0) == item_index(*ty));
                }
            }
            None
        }
    }

    /// A mutable reference to the count of `ty`, or `None` when the type has no entry.
    pub fn get_mut(&mut self, ty: &ItemType) -> (r: Option<&mut usize>)
        requires
            old(self).wf(),
        ensures
            final(self).wf(),
            r is Some <==> old(self)@.contains_key(*ty),
            r matches Some(v) ==> *v == old(self)@[*ty] && final(self)@ == old(self)@.insert(
                *ty,
                *final(v),
            ),
            r is None ==> final(self)@ == old(self)@,
    {
        proof {
            self.lemma_view();
        }
        let i = self.position(*ty);
        if i < self.entries.len() && self.entries[i].0 == *ty {
            let ghost s = self.entries@;
            proof {
                lemma_update_count(s, i as int);
            }
            let e = &mut self.entries[i];
            Some(&mut e.1)
        } else {
            proof {
                if self@.contains_key(*ty) {
                    let j = choose|j: int| 0 <= j < self.entries@.len() && self.entries@[j].0 == *ty;
                    assert(item_index(self.entries@[j].0) == item_index(*ty));
                }
            }
            None
        }
    }
}

/// Replacing the count of entry `i` replaces it in the map and keeps the entries sorted.
proof fn lemma_update_count(s: Seq<(ItemType, usize)>, i: int)
    requires
        sorted_entries(s),
        0 <= i < s.len(),
    ensures
        forall|v: usize| #[trigger] entries_map(s.update(i, (s[i].0, v))) == entries_map(s).insert(s[i].0, v),
        forall|v: usize| #[trigger] sorted_entries(s.update(i, (s[i].0, v))),
{
    assert forall|v: usize| #[trigger] entries_map(s.update(i, (s[i].0, v))) == entries_map(s).insert(s[i].0, v) by {
        lemma_update_count_one(s, i, v);
    }
    assert forall|v: usize| #[trigger] sorted_entries(s.update(i, (s[i].0, v))) by {
        let u = s.update(i, (s[i].0, v));
        assert forall|a: int, b: int| 0 <= a < b < u.len() implies item_index(u[a].0) < item_index(u[b].0) by {
            assert(u[a].0 == s[a].0 && u[b].0 == s[b].0);
        }
    }
}

proof fn lemma_update_count_one(s: Seq<(ItemType, usize)>, i: int, v: usize)
    requires
        sorted_entries(s),
        0 <= i < s.len(),
    ensures
        entries_map(s.update(i, (s[i].0, v))) == entries_map(s).insert(s[i].0, v),
    decreases s.len(),
{
    let u = s.update(i, (s[i].0, v));
    if i == s.len() - 1 {
        assert(u.drop_last() =~= s.drop_last());
        assert(entries_map(s).insert(s[i].0, v) =~= entries_map(s.drop_last()).insert(s[i].0, v));
    } else {
        let d = s.drop_last();
        assert(u.drop_last() =~= d.update(i, (s[i].0, v)));
        assert(sorted_entries(d));
        lemma_update_count_one(d, i, v);
        assert(s[i].0 != s.last().0);
        assert(entries_map(u) =~= entries_map(s).insert(s[i].0, v));
    }
}

proof fn lemma_insert_entry(s: Seq<(ItemType, usize)>, i: int, e: (ItemType, usize))
    requires
        sorted_entries(s),
        0 <= i <= s.len(),
        forall|k: int| 0 <= k < i ==> item_index(#[trigger] s[k].0) < item_index(e.0),
        forall|k: int| i <= k < s.len() ==> item_index(e.0) < item_index(#[trigger] s[k].0),
    ensures
        sorted_entries(s.insert(i, e)),
        entries_map(s.insert(i, e)) == entries_map(s).insert(e.0, e.1),
    decreases s.len(),
{
    let u = s.insert(i, e);
    assert forall|a: int, b: int| 0 <= a < b < u.len() implies item_index(u[a].0) < item_index(u[b].0) by {
        if b < i {
            assert(u[a] == s[a] && u[b] == s[b]);
        } else if b == i {
            assert(u[a] == s[a]);
        } else if a < i {
            assert(u[a] == s[a] && u[b] == s[b - 1]);
        } else if a == i {
            assert(u[b] == s[b - 1]);
        } else {
            assert(u[a] == s[a - 1] && u[b] == s[b - 1]);
        }
    }
    if i == s.len() {
        assert(u.drop_last() =~= s);
    } else {
        let d = s.drop_last();
        assert(u.drop_last() =~= d.insert(i, e));
        assert(sorted_entries(d));
        lemma_insert_entry(d, i, e);
        assert(u.last() == s.last());
        assert(e.0 != s.last().0);
        assert(entries_map(u) =~= entries_map(s).insert(e.0, e.1));
    }
}

proof fn lemma_remove_entry(s: Seq<(ItemType, usize)>, i: int)
    requires
        sorted_entries(s),
        0 <= i < s.len(),
    ensures
        sorted_entries(s.remove(i)),
        entries_map(s.remove(i)) == entries_map(s).remove(s[i].0),
    decreases s.len(),
{
    let u = s.remove(i);
    assert forall|a: int, b: int| 0 <= a < b < u.len() implies item_index(u[a].0) < item_index(u[b].0) by {
        if b < i {
            assert(u[a] == s[a] && u[b] == s[b]);
        } else if a < i {
            assert(u[a] == s[a] && u[b] == s[b + 1]);
        } else {
            assert(u[a] == s[a + 1] && u[b] == s[b + 1]);
        }
    }
    lemma_entries_map_contains(s.drop_last());
    if i == s.len() - 1 {
        assert(u =~= s.drop_last());
        let d = s.drop_last();
        assert forall|k: int| 0 <= k < d.len() implies d[k].0 != s[i].0 by {
            assert(d[k] == s[k]);
        }
        assert(!entries_map(d).contains_key(s[i].0));
        assert(entries_map(s).remove(s[i].0) =~= entries_map(d));
    } else {
        let d = s.drop_last();
        assert(u.drop_last() =~= d.remove(i));
        assert(sorted_entries(d));
        lemma_remove_entry(d, i);
        assert(u.last() == s.last());
        assert(d[i] == s[i]);
        assert(s[i].0 != s.last().0);
        assert(entries_map(u) =~= entries_map(s).remove(s[i].0));
    }
}

impl CountableInventory {
    /// Sets the count of `ty`, returning the previous count if the type had an entry.
    pub fn insert(&mut self, ty: ItemType, value: usize) -> (r: Option<usize>)
        requires
            old(self).wf(),
        ensures
            final(self).wf(),
            final(self)@ == old(self)@.insert(ty, value),
            r == (if old(self)@.contains_key(ty) { Some(old(self)@[ty]) } else { None::<usize> }),
    {
        proof {
            self.lemma_view();
        }
        let i = self.position(ty);
        if i < self.entries.len() && self.entries[i].0 == ty {
            let prev = self.entries[i].1;
            proof {
                lemma_update_count(self.entries@, i as int);
            }
            self.entries.set(i, (ty, value));
            Some(prev)
        } else {
            proof {
                if i < self.entries@.len() {
                    assert(item_index(ty) != item_index(self.entries@[i as int].0));
                }
                lemma_insert_entry(self.entries@, i as int, (ty, value));
                if self@.contains_key(ty) {
                    let j = choose|j: int| 0 <= j < self.entries@.len() && self.entries@[j].0 == ty;
                    assert(item_index(self.entries@[j].0) == item_index(ty));
                }
            }
            self.entries.insert(i, (ty, value));
            None
        }
    }

    /// Removes the entry of `ty`, returning its count.
    pub fn remove(&mut self, ty: &ItemType) -> (r: Option<usize>)
        requires
            old(self).wf(),
        ensures
            final(self).wf(),
            final(self)@ == old(self)@.remove(*ty),
            r == (if old(self)@.contains_key(*ty) { Some(old(self)@[*ty]) } else { None::<usize> }),
    {
        proof {
            self.lemma_view();
        }
        let i = self.position(*ty);
        if i < self.entries.len() && self.entries[i].0 == *ty {
            let prev = self.entries[i].1;
            proof {
                lemma_remove_entry(self.entries@, i as int);
            }
            self.entries.remove(i);
            Some(prev)
        } else {
            proof {
                if self@.contains_key(*ty) {
                    let j = choose|j: int| 0 <= j < self.entries@.len() && self.entries@[j].0 == *ty;
                    assert(item_index(self.entries@[j].0) == item_index(*ty));
                }
                assert(self@.remove(*ty) =~= self@);
            }
            None
        }
    }

    /// A mutable reference to the count of `ty`, creating an entry of 0 when there is none
    /// (the `entry(ty).or_default()` of a map).
    pub fn entry_or_default(&mut self, ty: ItemType) -> (r: &mut usize)
        requires
            old(self).wf(),
        ensures
            final(self).wf(),
            *r == (if old(self)@.contains_key(ty) { old(self)@[ty] } else { 0 }),
            final(self)@ == old(self)@.insert(ty, *final(r)),
    {
        proof {
            self.lemma_view();
        }
        if self.get(&ty).is_none() {
            self.insert(ty, 0);
        }
        let ghost mid = *self;
        match self.get_mut(&ty) {
            Some(v) => {
                proof {
                    assert(mid@ == old(self)@.insert(ty, *v) || old(self)@.contains_key(ty));
                }
                v
            },
            None => vstd::pervasive::unreached(),
        }
    }

    /// Whether there are no entries at all (an entry with a count of 0 still counts).
    pub fn is_empty(&self) -> (r: bool)
        requires
            self.wf(),
        ensures
            r == (self@.dom() == Set::<ItemType>::empty()),
    {
        proof {
            self.lemma_view();
            if self.entries@.len() > 0 {
                assert(self@.contains_key(self.entries@[0].0));
            }
        }
        self.entries.len() == 0
    }

    /// The entries, in item order.
    pub fn iter(&self) -> (r: Vec<(ItemType, usize)>)
        requires
            self.wf(),
        ensures
            r@ == self.entries(),
    {
        let mut out: Vec<(ItemType, usize)> = Vec::new();
        let mut i: usize = 0;
        while i < self.entries.len()
            invariant
                i <= self.entries@.len(),
                out@ == self.entries@.take(i as int),
            decreases self.entries@.len() - i,
        {
            let (t, n) = self.entries[i];
            out.push((t, n));
            proof {
                assert(out@ =~= self.entries@.take(i + 1));
            }
            i = i + 1;
        }
        proof {
            assert(self.entries@.take(i as int) =~= self.entries@);
        }
        out
    }

    /// The item types with an entry, in item order.
    pub fn keys(&self) -> (r: Vec<ItemType>)
        requires
            self.wf(),
        ensures
            r@.len() == self.entries().len(),
            forall|i: int| 0 <= i < r@.len() ==> r@[i] == self.entries()[i].0,
    {
        let mut out: Vec<ItemType> = Vec::new();
        let mut i: usize = 0;
        while i < self.entries.len()
            invariant
                i <= self.entries@.len(),
                out@.len() == i,
                forall|k: int| 0 <= k < i ==> out@[k] == self.entries@[k].0,
            decreases self.entries@.len() - i,
        {
            out.push(self.entries[i].0);
            i = i + 1;
        }
        out
    }

    /// The sum of all counts.
    pub fn total_count(&self) -> (r: usize)
        requires
            self.wf(),
            self.total() <= usize::MAX,
        ensures
            r == self.total(),
    {
        let mut sum: usize = 0;
        let mut i: usize = 0;
        while i < self.entries.len()
            invariant
                i <= self.entries@.len(),
                entries_sum(self.entries@) <= usize::MAX,
                sum == entries_sum(self.entries@.take(i as int)),
            decreases self.entries@.len() - i,
        {
            proof {
                assert(self.entries@.take(i + 1).drop_last() =~= self.entries@.take(i as int));
                lemma_sum_prefix(self.entries@, i + 1);
            }
            sum = sum + self.entries[i].1;
            i = i + 1;
        }
        proof {
            assert(self.entries@.take(i as int) =~= self.entries@);
        }
        sum
    }
}

/// A prefix of entries sums to at most the sum of all.
pub proof fn lemma_sum_prefix(s: Seq<(ItemType, usize)>, n: int)
    requires
        0 <= n <= s.len(),
    ensures
        entries_sum(s.take(n)) <= entries_sum(s),
    decreases s.len(),
{
    if n < s.len() {
        assert(s.drop_last().take(n) =~= s.take(n));
        lemma_sum_prefix(s.drop_last(), n);
    } else {
        assert(s.take(n) =~= s);
    }
}

/// Entries that are sorted hold an entry for exactly the keys of their map, with the
/// matching counts.
pub proof fn lemma_entries_of_view(c: CountableInventory)
    requires
        c.wf(),
    ensures
        sorted_entries(c.entries()),
        forall|i: int| 0 <= i < c.entries().len() ==> #[trigger] c@[c.entries()[i].0] == c.entries()[i].1,
        forall|k: ItemType| #[trigger]
            c@.contains_key(k) <==> exists|i: int| 0 <= i < c.entries().len() && c.entries()[i].0 == k,
{
    c.lemma_view();
    assert forall|k: ItemType| #[trigger]
        c@.contains_key(k) <==> exists|i: int| 0 <= i < c.entries().len() && c.entries()[i].0 == k by {
        if c@.contains_key(k) {
            let i = choose|i: int| 0 <= i < c.entries@.len() && c.entries@[i].0 == k;
            assert(c.entries()[i].0 == k);
        }
        if exists|i: int| 0 <= i < c.entries().len() && c.entries()[i].0 == k {
            let i = choose|i: int| 0 <= i < c.entries().len() && c.entries()[i].0 == k;
            assert(c.entries@[i].0 == k);
        }
    }
}

/// The total of an inventory is the sum of the counts of its entries.
pub proof fn lemma_total_is_sum(c: CountableInventory)
    ensures
        c.total() == entries_sum(c.entries()),
{
}

/// No count of a well formed inventory exceeds its total.
pub proof fn lemma_count_le_total(c: CountableInventory, t: ItemType)
    requires
        c.wf(),
    ensures
        c@.contains_key(t) ==> c@[t] <= c.total(),
{
    lemma_entries_of_view(c);
    if c@.contains_key(t) {
        let i = choose|i: int| 0 <= i < c.entries().len() && c.entries()[i].0 == t;
        lemma_entry_le_sum(c.entries(), i);
    }
}

proof fn lemma_entry_le_sum(s: Seq<(ItemType, usize)>, i: int)
    requires
        0 <= i < s.len(),
    ensures
        s[i].1 <= entries_sum(s),
    decreases s.len(),
{
    if i < s.len() - 1 {
        lemma_entry_le_sum(s.drop_last(), i);
    }
}

/// A well formed inventory has at most one entry per item type: at most ten.
pub proof fn lemma_entries_bound(c: CountableInventory)
    requires
        c.wf(),
    ensures
        c.entries().len() <= 10,
{
    lemma_entries_of_view(c);
    let s = c.entries();
    if s.len() > 10 {
        lemma_sorted_index_grows(s, 10);
        assert(item_index(s[10].0) >= 10);
    }
}

proof fn lemma_sorted_index_grows(s: Seq<(ItemType, usize)>, k: int)
    requires
        sorted_entries(s),
        0 <= k < s.len(),
    ensures
        item_index(s[k].0) >= k,
    decreases k,
{
    if k > 0 {
        lemma_sorted_index_grows(s, k - 1);
    }
}

/// The inventory of a building, a construction site or a crew.
#[derive(Debug)]
pub struct Inventory {
    /// A container for countable items.
    countable: CountableInventory,
}

impl Clone for Inventory {
    fn clone(&self) -> (r: Self)
        ensures
            r.spec_countable().entries() == self.spec_countable().entries(),
            r@ == self@,
    {
        Inventory { countable: self.countable.clone() }
    }
}

impl View for Inventory {
    type V = Map<ItemType, usize>;

    closed spec fn view(&self) -> Map<ItemType, usize> {
        self.countable@
    }
}

impl Inventory {
    /// The inventory is well formed.
    pub closed spec fn wf(&self) -> bool {
        self.countable.wf()
    }

    /// The countable items.
    pub closed spec fn spec_countable(&self) -> CountableInventory {
        self.countable
    }

    /// The sum of all counts.
    pub open spec fn total(&self) -> nat {
        self.spec_countable().total()
    }

    /// An empty inventory.
    pub fn new() -> (r: Self)
        ensures
            r.wf(),
            r@ == Map::<ItemType, usize>::empty(),
    {
        Inventory { countable: CountableInventory::new() }
    }

    /// An inventory holding the given counts.
    pub fn from_countable(countable: CountableInventory) -> (r: Self)
        requires
            countable.wf(),
        ensures
            r.wf(),
            r@ == countable@,
            r.spec_countable() == countable,
    {
        Inventory { countable }
    }

    /// An inventory built from pairs, a later pair of the same type overriding an earlier one.
    pub fn from_pairs(pairs: &[(ItemType, usize)]) -> (r: Self)
        ensures
            r.wf(),
            forall|k: ItemType| #[trigger] r@.contains_key(k) <==> exists|i: int| 0 <= i < pairs@.len() && pairs@[i].0 == k,
            forall|i: int|
                0 <= i < pairs@.len() && (forall|j: int| i < j < pairs@.len() ==> pairs@[j].0 != pairs@[i].0)
                    ==> r@[#[trigger] pairs@[i].0] == pairs@[i].1,
    {
        let mut inv = Inventory::new();
        let mut i: usize = 0;
        while i < pairs.len()
            invariant
                i <= pairs@.len(),
                inv.wf(),
                forall|k: ItemType| #[trigger] inv@.contains_key(k) <==> exists|j: int| 0 <= j < i && pairs@[j].0 == k,
                forall|j: int|
                    0 <= j < i && (forall|l: int| j < l < i ==> pairs@[l].0 != pairs@[j].0) ==> inv@[#[trigger] pairs@[j].0]
                        == pairs@[j].1,
            decreases pairs@.len() - i,
        {
            let (t, n) = pairs[i];
            inv.insert(t, n);
            proof {
                assert forall|k: ItemType| #[trigger] inv@.contains_key(k) <==> exists|j: int| 0 <= j < i + 1 && pairs@[j].0 == k by {
                    if k == t {
                        assert(pairs@[i as int].0 == k);
                    }
                }
            }
            i = i + 1;
        }
        inv
    }

    /// The countable items.
    pub fn countable(&self) -> (r: &CountableInventory)
        ensures
            *r == self.spec_countable(),
            r@ == self@,
    {
        &self.countable
    }

    /// The sum of all counts.
    pub fn countable_size(&self) -> (r: usize)
        requires
            self.wf(),
            self.total() <= usize::MAX,
        ensures
            r == self.total(),
    {
        self.countable.total_count()
    }

    /// The count of `ty`, 0 when there is no entry.
    pub fn get(&self, ty: &ItemType) -> (r: usize)
        requires
            self.wf(),
        ensures
            r == (if self@.contains_key(*ty) { self@[*ty] } else { 0 }),
    {
        match self.countable.get(ty) {
            Some(v) => *v,
            None => 0,
        }
    }

    /// A mutable reference to the count of `ty`, if there is an entry.
    pub fn get_mut(&mut self, ty: &ItemType) -> (r: Option<&mut usize>)
        requires
            old(self).wf(),
        ensures
            final(self).wf(),
            r is Some <==> old(self)@.contains_key(*ty),
            r matches Some(v) ==> *v == old(self)@[*ty] && final(self)@ == old(self)@.insert(
                *ty,
                *final(v),
            ),
            r is None ==> final(self)@ == old(self)@,
    {
        self.countable.get_mut(ty)
    }

    /// A mutable reference to the count of `ty`, creating an entry of 0 when there is none.
    pub fn entry(&mut self, ty: ItemType) -> (r: &mut usize)
        requires
            old(self).wf(),
        ensures
            final(self).wf(),
            *r == (if old(self)@.contains_key(ty) { old(self)@[ty] } else { 0 }),
            final(self)@ == old(self)@.insert(ty, *final(r)),
    {
        self.countable.entry_or_default(ty)
    }

    /// Removes the entry of `ty`, returning its count.
    pub fn remove(&mut self, ty: &ItemType) -> (r: Option<usize>)
        requires
            old(self).wf(),
        ensures
            final(self).wf(),
            final(self)@ == old(self)@.remove(*ty),
            r == (if old(self)@.contains_key(*ty) { Some(old(self)@[*ty]) } else { None::<usize> }),
    {
        self.countable.remove(ty)
    }

    /// The entries, in item order.
    pub fn iter(&self) -> (r: Vec<(ItemType, usize)>)
        requires
            self.wf(),
        ensures
            r@ == self.spec_countable().entries(),
    {
        self.countable.iter()
    }

    /// Whether there are no entries.
    pub fn is_empty(&self) -> (r: bool)
        requires
            self.wf(),
        ensures
            r == (self@.dom() == Set::<ItemType>::empty()),
    {
        self.countable.is_empty()
    }

    /// The item types with an entry, in item order.
    pub fn keys(&self) -> (r: Vec<ItemType>)
        requires
            self.wf(),
        ensures
            r@.len() == self.spec_countable().entries().len(),
            forall|i: int| 0 <= i < r@.len() ==> r@[i] == self.spec_countable().entries()[i].0,
    {
        self.countable.keys()
    }

    /// Sets the count of `ty`, returning the previous count if the type had an entry.
    pub fn insert(&mut self, key: ItemType, value: usize) -> (r: Option<usize>)
        requires
            old(self).wf(),
        ensures
            final(self).wf(),
            final(self)@ == old(self)@.insert(key, value),
            r == (if old(self)@.contains_key(key) { Some(old(self)@[key]) } else { None::<usize> }),
    {
        self.countable.insert(key, value)
    }
}

/// An inventory is well formed, and has its view, as its countable items.
pub proof fn lemma_inventory_parts(inv: Inventory)
    ensures
        inv.wf() == inv.spec_countable().wf(),
        inv@ == inv.spec_countable()@,
{
}

/// A well formed inventory of one item type has that one entry.
pub proof fn lemma_single_entry(c: CountableInventory, t: ItemType, n: usize)
    requires
        c.wf(),
        c@ == map![t => n],
    ensures
        c.entries().len() == 1,
        c.entries()[0] == (t, n),
{
    lemma_entries_of_view(c);
    assert(c@.contains_key(t));
    let i = choose|i: int| 0 <= i < c.entries().len() && c.entries()[i].0 == t;
    assert forall|k: int| 0 <= k < c.entries().len() implies c.entries()[k].0 == t by {
        assert(c@.contains_key(c.entries()[k].0));
    }
    if c.entries().len() >= 2 {
        assert(item_index(c.entries()[0].0) < item_index(c.entries()[1].0));
    }
    assert(c@[c.entries()[0].0] == c.entries()[0].1);
}

} // verus!
