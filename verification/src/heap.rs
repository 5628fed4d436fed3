//! A binary min-heap of search entries ordered by distance, with the sift rules of the
//! standard library's `BinaryHeap`, so that entries of equal distance leave in the same order.
use vstd::prelude::*;

verus! {

/// Every element of `new` is an element of `old`.
pub open spec fn drawn_from<T>(new: Seq<T>, old: Seq<T>) -> bool {
    forall|i: int| 0 <= i < new.len() ==> old.contains(#[trigger] new[i])
}

/// Heap order: no item is closer than its parent (the parent of position `i > 0` is
/// `(i - 1) / 2`).
pub open spec fn heap_ordered<T>(s: Seq<(usize, T)>) -> bool {
    forall|i: int| 0 < i < s.len() ==> s[(i - 1) / 2].0 <= #[trigger] s[i].0
}

/// Heap order but for the link from `pos` to its parent, and the parent of `pos` is no
/// farther than the children of `pos`.
pub open spec fn ordered_but_up<T>(s: Seq<(usize, T)>, pos: int) -> bool {
    &&& forall|i: int| 0 < i < s.len() && i != pos ==> s[(i - 1) / 2].0 <= #[trigger] s[i].0
    &&& pos > 0 ==> forall|c: int| 0 < c < s.len() && (c - 1) / 2 == pos ==> s[(pos - 1) / 2].0 <= #[trigger] s[c].0
}

/// Heap order but for the links of `hole` to its parent and to its children, and the parent
/// of `hole` is no farther than the children of `hole`.
#[verifier::opaque]
pub open spec fn ordered_but_hole<T>(s: Seq<(usize, T)>, hole: int) -> bool {
    &&& forall|i: int| 0 < i < s.len() && i != hole && (i - 1) / 2 != hole ==> s[(i - 1) / 2].0 <= #[trigger] s[i].0
    &&& hole > 0 ==> forall|c: int| 0 < c < s.len() && (c - 1) / 2 == hole ==> s[(hole - 1) / 2].0 <= #[trigger] s[c].0
}

/// In heap order the first item is the closest.
pub proof fn lemma_heap_root_least<T>(s: Seq<(usize, T)>, i: int)
    requires
        heap_ordered(s),
        0 <= i < s.len(),
    ensures
        s[0].0 <= s[i].0,
    decreases i,
{
    if i > 0 {
        assert(s[(i - 1) / 2].0 <= s[i].0);
        lemma_heap_root_least(s, (i - 1) / 2);
    }
}

/// Swapping two items keeps the multiset of items.
proof fn lemma_swap_multiset<A>(s: Seq<A>, a: int, b: int)
    requires
        0 <= a < s.len(),
        0 <= b < s.len(),
    ensures
        s.update(a, s[b]).update(b, s[a]).to_multiset() == s.to_multiset(),
{
    broadcast use vstd::seq_lib::to_multiset_update, vstd::seq_lib::to_multiset_contains, vstd::multiset::group_multiset_axioms;

    let s1 = s.update(a, s[b]);
    let m = s.to_multiset();
    assert(s.contains(s[a]));
    assert(m.count(s[a]) > 0);
    assert(s1.to_multiset() == m.insert(s[b]).remove(s[a]));
    assert(s1[b] == s[b]);
    assert(s1.update(b, s[a]).to_multiset() == s1.to_multiset().insert(s[a]).remove(s[b]));
    let m1 = m.insert(s[b]).remove(s[a]);
    assert(m1.insert(s[a]).count(s[b]) > 0);
    assert forall|x: A| #[trigger] m1.insert(s[a]).remove(s[b]).count(x) == m.count(x) by {}
    assert(m1.insert(s[a]).remove(s[b]) =~= m);
}

/// A heap of items, each with a distance; the item of least distance leaves first.
pub struct DistHeap<T> {
    data: Vec<(usize, T)>,
}

impl<T: Copy> DistHeap<T> {
    /// The items with their distances, in heap order.
    pub closed spec fn elems(&self) -> Seq<(usize, T)> {
        self.data@
    }

    /// The items are in heap order.
    pub closed spec fn wf(&self) -> bool {
        heap_ordered(self.data@)
    }

    /// An empty heap.
    pub fn new() -> (r: Self)
        ensures
            r.wf(),
            r.elems() == Seq::<(usize, T)>::empty(),
    {
        DistHeap { data: Vec::new() }
    }

    /// The number of items.
    pub fn len(&self) -> (r: usize)
        ensures
            r == self.elems().len(),
    {
        self.data.len()
    }

    fn swap(&mut self, a: usize, b: usize)
        requires
            a < old(self).data@.len(),
            b < old(self).data@.len(),
        ensures
            final(self).data@ == old(self).data@.update(a as int, old(self).data@[b as int]).update(
                b as int,
                old(self).data@[a as int],
            ),
            final(self).data@.to_multiset() == old(self).data@.to_multiset(),
    {
        proof {
            lemma_swap_multiset(self.data@, a as int, b as int);
        }
        let x = self.data[a];
        let y = self.data[b];
        self.data.set(a, y);
        self.data.set(b, x);
    }

    /// Moves the item at `pos` up towards the root while it is strictly closer than its
    /// parent.
    fn sift_up(&mut self, pos: usize)
        requires
            pos < old(self).data@.len(),
            ordered_but_up(old(self).data@, pos as int),
        ensures
            final(self).data@.len() == old(self).data@.len(),
            drawn_from(final(self).data@, old(self).data@),
            final(self).data@.to_multiset() == old(self).data@.to_multiset(),
            heap_ordered(final(self).data@),
    {
        let mut pos = pos;
        proof {
            lemma_drawn_refl(self.data@);
        }
        while pos > 0
            invariant_except_break
                pos < self.data@.len(),
                self.data@.len() == old(self).data@.len(),
                drawn_from(self.data@, old(self).data@),
                self.data@.to_multiset() == old(self).data@.to_multiset(),
                ordered_but_up(self.data@, pos as int),
            ensures
                self.data@.len() == old(self).data@.len(),
                drawn_from(self.data@, old(self).data@),
                self.data@.to_multiset() == old(self).data@.to_multiset(),
                heap_ordered(self.data@),
            decreases pos,
        {
            let parent = (pos - 1) / 2;
            if self.data[pos].0 >= self.data[parent].0 {
                proof {
                    let s = self.data@;
                    assert forall|i: int| 0 < i < s.len() implies s[(i - 1) / 2].0 <= #[trigger] s[i].0 by {
                        if i != pos {
                            assert(ordered_but_up(s, pos as int));
                        }
                    }
                }
                break;
            }
            let ghost before = self.data@;
            self.swap(pos, parent);
            proof {
                lemma_swap_drawn(before, old(self).data@, pos as int, parent as int);
                let s = self.data@;
                let p = pos as int;
                let q = parent as int;
                assert(s[q] == before[p] && s[p] == before[q]);
                assert forall|i: int| 0 < i < s.len() && i != q implies s[(i - 1) / 2].0 <= #[trigger] s[i].0 by {
                    if i == p {
                    } else if (i - 1) / 2 == p {
                        assert(before[i] == s[i]);
                    } else if (i - 1) / 2 == q {
                        assert(before[i] == s[i]);
                        assert(before[(i - 1) / 2].0 <= before[i].0);
                    } else {
                        assert(before[i] == s[i]);
                        assert(before[(i - 1) / 2] == s[(i - 1) / 2]);
                    }
                }
                if q > 0 {
                    assert forall|c: int| 0 < c < s.len() && (c - 1) / 2 == q implies s[(q - 1) / 2].0 <= #[trigger] s[c].0 by {
                        assert(before[(q - 1) / 2] == s[(q - 1) / 2]);
                        assert(before[(q - 1) / 2].0 <= before[q].0);
                        if c != p {
                            assert(before[c] == s[c]);
                        }
                    }
                }
            }
            pos = parent;
        }
    }

    /// Moves the root down to the bottom along the closer children (the right child when the
    /// two are equally close), then sifts it up again.
    fn sift_down_to_bottom(&mut self)
        requires
            0 < old(self).data@.len(),
            ordered_but_hole(old(self).data@, 0),
        ensures
            final(self).data@.len() == old(self).data@.len(),
            drawn_from(final(self).data@, old(self).data@),
            final(self).data@.to_multiset() == old(self).data@.to_multiset(),
            heap_ordered(final(self).data@),
    {
        let end = self.data.len();
        let mut hole: usize = 0;
        let limit = if end >= 2 { end - 2 } else { 0 };
        proof {
            lemma_drawn_refl(self.data@);
        }
        while limit >= 1 && hole <= (limit - 1) / 2
            invariant
                end == self.data@.len(),
                end == old(self).data@.len(),
                limit == (if end >= 2 { end - 2 } else { 0 }),
                hole < end,
                drawn_from(self.data@, old(self).data@),
                self.data@.to_multiset() == old(self).data@.to_multiset(),
                ordered_but_hole(self.data@, hole as int),
            decreases end - hole,
        {
            let mut child = 2 * hole + 1;
            if self.data[child].0 >= self.data[child + 1].0 {
                child = child + 1;
            }
            let ghost before = self.data@;
            proof {
                assert forall|o: int| 0 < o < before.len() && (o - 1) / 2 == hole implies before[child as int].0
                    <= #[trigger] before[o].0 by {
                    assert(o == 2 * hole + 1 || o == 2 * hole + 2);
                }
            }
            self.swap(hole, child);
            proof {
                lemma_swap_drawn(before, old(self).data@, hole as int, child as int);
                lemma_hole_step(before, hole as int, child as int);
            }
            hole = child;
        }
        if end >= 2 && (end - 2) % 2 == 0 && hole == (end - 2) / 2 {
            let child = end - 1;
            let ghost before = self.data@;
            proof {
                assert forall|o: int| 0 < o < before.len() && (o - 1) / 2 == hole implies before[child as int].0
                    <= #[trigger] before[o].0 by {
                    assert(o == 2 * hole + 1 || o == 2 * hole + 2);
                }
            }
            self.swap(hole, child);
            proof {
                lemma_swap_drawn(before, old(self).data@, hole as int, child as int);
                lemma_hole_step(before, hole as int, child as int);
            }
            hole = child;
        }
        proof {
            assert(2 * hole + 1 >= end);
            lemma_leaf_hole(self.data@, hole as int);
        }
        let ghost mid = self.data@;
        self.sift_up(hole);
        proof {
            lemma_drawn_trans(self.data@, mid, old(self).data@);
        }
    }

    /// Adds an item with its distance.
    pub fn push(&mut self, dist: usize, item: T)
        requires
            old(self).wf(),
        ensures
            final(self).wf(),
            final(self).elems().len() == old(self).elems().len() + 1,
            drawn_from(final(self).elems(), old(self).elems().push((dist, item))),
            final(self).elems().to_multiset() == old(self).elems().to_multiset().insert((dist, item)),
    {
        let old_len = self.data.len();
        self.data.push((dist, item));
        let ghost mid = self.data@;
        proof {
            broadcast use vstd::seq_lib::to_multiset_build;
            assert(mid == old(self).data@.push((dist, item)));
            assert forall|i: int| 0 < i < mid.len() && i != old_len implies mid[(i - 1) / 2].0 <= #[trigger] mid[i].0 by {
                assert(mid[i] == old(self).data@[i]);
                assert(mid[(i - 1) / 2] == old(self).data@[(i - 1) / 2]);
            }
            assert forall|i: int| 0 <= i < mid.len() implies old(self).data@.push((dist, item)).contains(
                #[trigger] mid[i],
            ) by {
                assert(mid[i] == old(self).data@.push((dist, item))[i]);
            }
        }
        self.sift_up(old_len);
        proof {
            lemma_drawn_trans(self.data@, mid, old(self).data@.push((dist, item)));
        }
    }

    /// Takes out an item of least distance (the first such in heap order).
    pub fn pop(&mut self) -> (r: Option<(usize, T)>)
        requires
            old(self).wf(),
        ensures
            final(self).wf(),
            r is None <==> old(self).elems().len() == 0,
            r matches Some(x) ==> old(self).elems().contains(x),
            r matches Some(x) ==> forall|i: int| 0 <= i < old(self).elems().len() ==> x.0 <= #[trigger] old(self).elems()[i].0,
            r matches Some(x) ==> final(self).elems().to_multiset() == old(self).elems().to_multiset().remove(x),
            final(self).elems().len() == if old(self).elems().len() == 0 {
                0
            } else {
                old(self).elems().len() - 1
            },
            drawn_from(final(self).elems(), old(self).elems()),
    {
        match self.data.pop() {
            None => None,
            Some(item) => {
                let ghost after_pop = self.data@;
                proof {
                    assert(after_pop == old(self).data@.drop_last());
                    assert(item == old(self).data@.last());
                }
                if self.data.len() == 0 {
                    proof {
                        broadcast use vstd::seq_lib::to_multiset_build, vstd::multiset::group_multiset_axioms;
                        assert(old(self).data@ =~= Seq::<(usize, T)>::empty().push(item));
                        let e = Seq::<(usize, T)>::empty();
                        assert(old(self).data@.to_multiset() == e.to_multiset().insert(item));
                        assert(e.to_multiset().insert(item).remove(item) =~= e.to_multiset());
                        assert(self.data@ =~= e);
                        assert(old(self).data@[0] == item);
                        assert(old(self).data@.contains(item));
                        assert(self.data@ =~= Seq::<(usize, T)>::empty());
                    }
                    Some(item)
                } else {
                    let top = self.data[0];
                    self.data.set(0, item);
                    let ghost mid = self.data@;
                    proof {
                        assert forall|i: int| 0 <= i < mid.len() implies old(self).data@.contains(
                            #[trigger] mid[i],
                        ) by {
                            if i == 0 {
                                assert(mid[0] == old(self).data@[old(self).data@.len() - 1]);
                            } else {
                                assert(mid[i] == old(self).data@[i]);
                            }
                        }
                        assert(old(self).data@[0] == top);
                        assert(old(self).data@.contains(top));
                        broadcast use vstd::seq_lib::to_multiset_build, vstd::seq_lib::to_multiset_update;
                        assert(old(self).data@ =~= after_pop.push(item));
                        assert(mid == after_pop.update(0, item));
                        assert(after_pop[0] == top);
                        assert(mid.to_multiset() == old(self).data@.to_multiset().remove(top)) by {
                            broadcast use vstd::multiset::group_multiset_axioms;
                            assert(mid.to_multiset() =~= old(self).data@.to_multiset().remove(top));
                        }
                        reveal(ordered_but_hole);
                        assert forall|i: int| 0 < i < mid.len() && i != 0 && (i - 1) / 2 != 0 implies mid[(i - 1) / 2].0
                            <= #[trigger] mid[i].0 by {
                            assert(mid[i] == old(self).data@[i]);
                            assert(mid[(i - 1) / 2] == old(self).data@[(i - 1) / 2]);
                        }
                        assert forall|i: int| 0 <= i < old(self).data@.len() implies top.0 <= #[trigger] old(self).data@[i].0 by {
                            lemma_heap_root_least(old(self).data@, i);
                        }
                    }
                    self.sift_down_to_bottom();
                    proof {
                        lemma_drawn_trans(self.data@, mid, old(self).data@);
                    }
                    Some(top)
                }
            },
        }
    }
}

/// Moving the hole down to its closer child (the only child, or one no farther than its
/// sibling) keeps heap order around the hole.
proof fn lemma_hole_step<T>(before: Seq<(usize, T)>, h: int, c: int)
    requires
        0 <= h < c < before.len(),
        (c - 1) / 2 == h,
        ordered_but_hole(before, h),
        forall|o: int| 0 < o < before.len() && (o - 1) / 2 == h ==> before[c].0 <= #[trigger] before[o].0,
    ensures
        ordered_but_hole(before.update(h, before[c]).update(c, before[h]), c),
{
    reveal(ordered_but_hole);
    let s = before.update(h, before[c]).update(c, before[h]);
    assert forall|i: int| 0 < i < s.len() && i != c && (i - 1) / 2 != c implies s[(i - 1) / 2].0 <= #[trigger] s[i].0 by {
        if i == h {
            assert(before[(h - 1) / 2] == s[(h - 1) / 2]);
        } else if (i - 1) / 2 == h {
            assert(s[i] == before[i]);
        } else {
            assert(s[i] == before[i]);
            assert(s[(i - 1) / 2] == before[(i - 1) / 2]);
        }
    }
    assert forall|g: int| 0 < g < s.len() && (g - 1) / 2 == c implies s[(c - 1) / 2].0 <= #[trigger] s[g].0 by {
        assert(s[g] == before[g]);
        assert(before[(g - 1) / 2].0 <= before[g].0);
    }
}

/// A hole without children only breaks the link to its parent.
proof fn lemma_leaf_hole<T>(s: Seq<(usize, T)>, h: int)
    requires
        0 <= h < s.len(),
        2 * h + 1 >= s.len(),
        ordered_but_hole(s, h),
    ensures
        ordered_but_up(s, h),
{
    reveal(ordered_but_hole);
    assert forall|i: int| 0 < i < s.len() && i != h implies s[(i - 1) / 2].0 <= #[trigger] s[i].0 by {
        assert((i - 1) / 2 != h);
    }
}

proof fn lemma_drawn_refl<T>(a: Seq<T>)
    ensures
        drawn_from(a, a),
{
    assert forall|i: int| 0 <= i < a.len() implies a.contains(#[trigger] a[i]) by {
        assert(a[i] == a[i]);
    }
}

proof fn lemma_swap_drawn<T>(before: Seq<T>, orig: Seq<T>, a: int, b: int)
    requires
        0 <= a < before.len(),
        0 <= b < before.len(),
        drawn_from(before, orig),
    ensures
        drawn_from(before.update(a, before[b]).update(b, before[a]), orig),
{
    let after = before.update(a, before[b]).update(b, before[a]);
    assert forall|i: int| 0 <= i < after.len() implies orig.contains(#[trigger] after[i]) by {
        if i == b {
            assert(after[i] == before[a]);
        } else if i == a {
            assert(after[i] == before[b]);
        } else {
            assert(after[i] == before[i]);
        }
    }
}

proof fn lemma_drawn_trans<T>(a: Seq<T>, b: Seq<T>, c: Seq<T>)
    requires
        drawn_from(a, b),
        drawn_from(b, c),
    ensures
        drawn_from(a, c),
{
    assert forall|i: int| 0 <= i < a.len() implies c.contains(#[trigger] a[i]) by {
        assert(b.contains(a[i]));
        let k = choose|k: int| 0 <= k < b.len() && b[k] == a[i];
        assert(c.contains(b[k]));
    }
}

/// Five to the power `e`.
pub open spec fn pow5(e: nat) -> nat
    decreases e,
{
    if e == 0 {
        1
    } else {
        5 * pow5((e - 1) as nat)
    }
}

/// A measure of the work a search may still do with these heap items: an item at distance
/// `d` weighs `5^(usize::MAX - d)`, more than the four items one farther that it may bring in.
pub open spec fn potential<T>(s: Seq<(usize, T)>) -> nat
    decreases s.len(),
{
    if s.len() == 0 {
        0
    } else {
        potential(s.drop_last()) + pow5((usize::MAX - s.last().0) as nat)
    }
}

/// Removing an item takes its weight off the potential.
pub proof fn lemma_potential_remove<T>(s: Seq<(usize, T)>, i: int)
    requires
        0 <= i < s.len(),
    ensures
        potential(s) == potential(s.remove(i)) + pow5((usize::MAX - s[i].0) as nat),
    decreases s.len(),
{
    if i == s.len() - 1 {
        assert(s.remove(i) =~= s.drop_last());
    } else {
        assert(s.remove(i).drop_last() =~= s.drop_last().remove(i));
        assert(s.remove(i).last() == s.last());
        lemma_potential_remove(s.drop_last(), i);
    }
}

/// The potential depends only on the multiset of items.
pub proof fn lemma_potential_multiset<T>(a: Seq<(usize, T)>, b: Seq<(usize, T)>)
    requires
        a.to_multiset() == b.to_multiset(),
    ensures
        potential(a) == potential(b),
    decreases a.len(),
{
    broadcast use vstd::seq_lib::to_multiset_build, vstd::seq_lib::to_multiset_remove,
        vstd::seq_lib::to_multiset_contains, vstd::seq_lib::to_multiset_len, vstd::multiset::group_multiset_axioms;

    if a.len() == 0 {
        assert(b.to_multiset().len() == 0);
        assert(b.len() == 0);
    } else {
        let x = a.last();
        assert(a =~= a.drop_last().push(x));
        assert(a.to_multiset() == a.drop_last().to_multiset().insert(x));
        assert(b.to_multiset().count(x) > 0);
        assert(b.contains(x));
        let i = choose|i: int| 0 <= i < b.len() && b[i] == x;
        assert(b.remove(i).to_multiset() == b.to_multiset().remove(x));
        assert(b.remove(i).to_multiset() =~= a.drop_last().to_multiset());
        lemma_potential_multiset(a.drop_last(), b.remove(i));
        lemma_potential_remove(b, i);
    }
}

/// Four items one farther weigh less than one item.
pub proof fn lemma_pow5_step(d: nat)
    ensures
        4 * pow5(d) < pow5(d + 1),
{
    assert(pow5(d + 1) == 5 * pow5(d));
    lemma_pow5_pos(d);
}

pub proof fn lemma_pow5_pos(d: nat)
    ensures
        pow5(d) >= 1,
    decreases d,
{
    if d > 0 {
        lemma_pow5_pos((d - 1) as nat);
    }
}

} // verus!
