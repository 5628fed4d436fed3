//! Items in transit over conveyors, and path finding over the tile grid.
use vstd::prelude::*;

use crate::direction::{dir_vec, Direction};
use crate::entity::{lookup, EntityEntry, EntityId, EntitySet};
use crate::heap::{drawn_from, lemma_potential_multiset, lemma_pow5_pos, lemma_pow5_step, potential, pow5, DistHeap};
use crate::inventory::CountableInventory;
use crate::items::ItemType;
use crate::Pos;

verus! {

/// An item in transit along a path. The next position is the last one of the path.
#[derive(Clone, Debug)]
pub struct Transport {
    pub src: Pos,
    pub dest: Pos,
    pub item: ItemType,
    pub amount: usize,
    pub path: Vec<Pos>,
}

/// The id of a transport.
pub type TransportId = EntityId<Transport>;

/// The amount of `item` on its way through the transports that `ids` refer to (ids that no
/// longer resolve count for nothing).
pub open spec fn delivery_total(
    s: Seq<EntityEntry<Transport>>,
    ids: Seq<TransportId>,
    item: ItemType,
) -> nat
    decreases ids.len(),
{
    if ids.len() == 0 {
        0
    } else {
        delivery_total(s, ids.drop_last(), item) + match lookup(s, ids.last()) {
            Some(t) => if t.item == item {
                t.amount as nat
            } else {
                0nat
            },
            None => 0nat,
        }
    }
}

/// Some id of `ids` refers to a transport of `item`.
pub open spec fn delivers(s: Seq<EntityEntry<Transport>>, ids: Seq<TransportId>, item: ItemType) -> bool {
    exists|i: int| 0 <= i < ids.len() && (#[trigger] lookup(s, ids[i]) matches Some(t) && t.item == item)
}

/// Counts the items on their way through the given transports, by item type.
pub fn expected_deliveries(
    transports: &EntitySet<Transport>,
    expected_transports: &Vec<TransportId>,
) -> (r: CountableInventory)
    requires
        forall|item: ItemType|
            delivery_total(transports.slots(), expected_transports@, item) <= usize::MAX,
    ensures
        r.wf(),
        forall|item: ItemType| #[trigger]
            r@.contains_key(item) <==> delivers(transports.slots(), expected_transports@, item),
        forall|item: ItemType|
            r@.contains_key(item) ==> #[trigger] r@[item] == delivery_total(
                transports.slots(),
                expected_transports@,
                item,
            ),
{
    let mut expected = CountableInventory::new();
    let mut i: usize = 0;
    while i < expected_transports.len()
        invariant
            i <= expected_transports@.len(),
            expected.wf(),
            forall|item: ItemType|
                delivery_total(transports.slots(), expected_transports@, item) <= usize::MAX,
            forall|item: ItemType| #[trigger]
                expected@.contains_key(item) <==> delivers(
                    transports.slots(),
                    expected_transports@.take(i as int),
                    item,
                ),
            forall|item: ItemType|
                expected@.contains_key(item) ==> #[trigger] expected@[item] == delivery_total(
                    transports.slots(),
                    expected_transports@.take(i as int),
                    item,
                ),
        decreases expected_transports@.len() - i,
    {
        let ghost ids = expected_transports@;
        let ghost pre = ids.take(i as int);
        let ghost post = ids.take(i + 1);
        proof {
            assert(post.drop_last() =~= pre);
            assert(post.last() == ids[i as int]);
        }
        match transports.get(expected_transports[i]) {
            Some(t) => {
                let item = t.item;
                let amount = t.amount;
                proof {
                    lemma_delivery_total_prefix(transports.slots(), ids, i + 1, item);
                    if !expected@.contains_key(item) {
                        assert(!delivers(transports.slots(), pre, item));
                        lemma_no_delivery_total(transports.slots(), pre, item);
                    }
                }
                let entry = expected.entry_or_default(item);
                *entry = *entry + amount;
                proof {
                    assert forall|it: ItemType| #[trigger]
                        expected@.contains_key(it) <==> delivers(transports.slots(), post, it) by {
                        if delivers(transports.slots(), pre, it) {
                            let k = choose|k: int|
                                0 <= k < pre.len() && (#[trigger] lookup(transports.slots(), pre[k]) matches Some(t)
                                    && t.item == it);
                            assert(post[k] == pre[k]);
                        }
                        if delivers(transports.slots(), post, it) {
                            let k = choose|k: int|
                                0 <= k < post.len() && (#[trigger] lookup(transports.slots(), post[k]) matches Some(t)
                                    && t.item == it);
                            if k < pre.len() {
                                assert(post[k] == pre[k]);
                            }
                        }
                        if it == item {
                            assert(post[i as int] == ids[i as int]);
                        }
                    }
                }
            },
            None => {
                proof {
                    assert forall|it: ItemType| #[trigger]
                        expected@.contains_key(it) <==> delivers(transports.slots(), post, it) by {
                        if delivers(transports.slots(), pre, it) {
                            let k = choose|k: int|
                                0 <= k < pre.len() && (#[trigger] lookup(transports.slots(), pre[k]) matches Some(t)
                                    && t.item == it);
                            assert(post[k] == pre[k]);
                        }
                        if delivers(transports.slots(), post, it) {
                            let k = choose|k: int|
                                0 <= k < post.len() && (#[trigger] lookup(transports.slots(), post[k]) matches Some(t)
                                    && t.item == it);
                            if k < pre.len() {
                                assert(post[k] == pre[k]);
                            }
                        }
                    }
                }
            },
        }
        i = i + 1;
    }
    proof {
        assert(expected_transports@.take(i as int) =~= expected_transports@);
    }
    expected
}

/// The amount of `item` on its way through the transports that `ids` refer to, or
/// `usize::MAX` when it is more than that.
pub fn delivery_count(transports: &EntitySet<Transport>, ids: &Vec<TransportId>, item: ItemType) -> (r: usize)
    ensures
        r == (if delivery_total(transports.slots(), ids@, item) <= usize::MAX {
            delivery_total(transports.slots(), ids@, item)
        } else {
            usize::MAX as nat
        }),
{
    let mut sum: usize = 0;
    let mut i: usize = 0;
    while i < ids.len()
        invariant
            i <= ids@.len(),
            sum == (if delivery_total(transports.slots(), ids@.take(i as int), item) <= usize::MAX {
                delivery_total(transports.slots(), ids@.take(i as int), item)
            } else {
                usize::MAX as nat
            }),
        decreases ids@.len() - i,
    {
        proof {
            assert(ids@.take(i + 1).drop_last() =~= ids@.take(i as int));
        }
        match transports.get(ids[i]) {
            Some(t) => {
                if t.item == item {
                    sum = sum.saturating_add(t.amount);
                }
            },
            None => {},
        }
        i = i + 1;
    }
    proof {
        assert(ids@.take(i as int) =~= ids@);
    }
    sum
}

proof fn lemma_delivery_total_prefix(
    s: Seq<EntityEntry<Transport>>,
    ids: Seq<TransportId>,
    n: int,
    item: ItemType,
)
    requires
        0 <= n <= ids.len(),
    ensures
        delivery_total(s, ids.take(n), item) <= delivery_total(s, ids, item),
    decreases ids.len(),
{
    if n < ids.len() {
        assert(ids.drop_last().take(n) =~= ids.take(n));
        lemma_delivery_total_prefix(s, ids.drop_last(), n, item);
    } else {
        assert(ids.take(n) =~= ids);
    }
}

/// The amount on its way through the ids depends only on what the ids resolve to.
pub proof fn lemma_delivery_total_same(
    s1: Seq<EntityEntry<Transport>>,
    s2: Seq<EntityEntry<Transport>>,
    ids: Seq<TransportId>,
    item: ItemType,
)
    requires
        forall|k: int| 0 <= k < ids.len() ==> lookup(s2, #[trigger] ids[k]) == lookup(s1, ids[k]),
    ensures
        delivery_total(s2, ids, item) == delivery_total(s1, ids, item),
    decreases ids.len(),
{
    if ids.len() > 0 {
        let d = ids.drop_last();
        assert forall|k: int| 0 <= k < d.len() implies lookup(s2, #[trigger] d[k]) == lookup(s1, d[k]) by {
            assert(d[k] == ids[k]);
        }
        lemma_delivery_total_same(s1, s2, d, item);
        assert(lookup(s2, ids[ids.len() - 1]) == lookup(s1, ids[ids.len() - 1]));
    }
}

/// Nothing is on its way of an item that no transport of the ids carries.
pub proof fn lemma_no_delivery_total(s: Seq<EntityEntry<Transport>>, ids: Seq<TransportId>, item: ItemType)
    requires
        !delivers(s, ids, item),
    ensures
        delivery_total(s, ids, item) == 0,
    decreases ids.len(),
{
    if ids.len() > 0 {
        let d = ids.drop_last();
        assert(!delivers(s, d, item)) by {
            if delivers(s, d, item) {
                let k = choose|k: int| 0 <= k < d.len() && (#[trigger] lookup(s, d[k]) matches Some(t) && t.item == item);
                assert(ids[k] == d[k]);
            }
        }
        lemma_no_delivery_total(s, d, item);
        assert(!(lookup(s, ids[ids.len() - 1]) matches Some(t) && t.item == item));
    }
}

/// A conveyor position: a tile and a level (true for the second level of a crossing).
#[derive(Clone, Copy, Debug)]
pub struct CPos {
    pub pos: Pos,
    pub level: bool,
}

impl CPos {
    pub fn new(pos: Pos, level: bool) -> (r: Self)
        ensures
            r.pos == pos,
            r.level == level,
    {
        CPos { pos, level }
    }
}

fn cpos_eq(a: &CPos, b: &CPos) -> (r: bool)
    ensures
        r == (*a == *b),
{
    let r = a.pos[0] == b.pos[0] && a.pos[1] == b.pos[1] && a.level == b.level;
    proof {
        if r {
            assert(a.pos@ =~= b.pos@);
            assert(a.pos == b.pos);
        }
        if *a == *b {
            assert(a.pos@[0] == b.pos@[0] && a.pos@[1] == b.pos@[1]);
        }
    }
    r
}

/// Whether a search expands to a neighbour, and on which level.
#[derive(Clone, Copy, Debug, PartialEq, Eq, Structural)]
pub enum LevelTarget {
    /// Do not expand.
    Blocked,
    /// Expand on the first level.
    One,
    /// Expand on the second level.
    Two,
}

/// A search node: where, how far from a start, and from which node in which direction.
#[derive(Clone, Copy, Debug)]
struct Entry {
    pos: CPos,
    dist: usize,
    from: Option<(Direction, CPos)>,
}

/// `a` is the tile one step from `b` in direction `d`.
pub open spec fn step_to(b: Pos, d: Direction, a: Pos) -> bool {
    &&& a[0] as int == b[0] as int + dir_vec(d).0
    &&& a[1] as int == b[1] as int + dir_vec(d).1
}

/// A path found by a search, the goal first and a start last: it has at least two tiles, the
/// goal test held for the first, the last is a start, and every other tile is one step from
/// the next one in a direction for which the passability test held.
pub open spec fn found_path<G: Fn(Pos) -> bool, P: Fn(Option<Direction>, Pos) -> bool>(
    starts: Seq<Pos>,
    path: Seq<Pos>,
    goal: G,
    is_passable: P,
) -> bool {
    &&& path.len() >= 2
    &&& call_ensures(goal, (path[0],), true)
    &&& starts.contains(path.last())
    &&& forall|k: int|
        0 <= k < path.len() - 1 ==> exists|d: Direction|
            step_to(path[k + 1], d, #[trigger] path[k]) && call_ensures(is_passable, (Some(d), path[k]), true)
}

/// The entry stored for node `p` in a visited list: the last one.
spec fn visited_lookup(s: Seq<Entry>, p: CPos) -> Option<Entry>
    decreases s.len(),
{
    if s.len() == 0 {
        None
    } else if s.last().pos == p {
        Some(s.last())
    } else {
        visited_lookup(s.drop_last(), p)
    }
}

/// A node some entry of a visited list is stored for.
spec fn has_node(s: Seq<Entry>, p: CPos) -> bool {
    visited_lookup(s, p) is Some
}

/// What a heap entry guarantees: it was reached in one step from a visited node.
spec fn heap_entry_ok(s: Seq<Entry>, e: Entry) -> bool {
    match e.from {
        Some((d, p)) => step_to(p.pos, d, e.pos.pos) && has_node(s, p),
        None => false,
    }
}

/// What a visited entry guarantees: it is a start, or it was reached in one step from a
/// visited node in a direction for which the passability test held.
spec fn visited_entry_ok<P: Fn(Option<Direction>, Pos) -> bool>(
    s: Seq<Entry>,
    starts: Seq<Pos>,
    is_passable: P,
    e: Entry,
) -> bool {
    match e.from {
        Some((d, p)) => step_to(p.pos, d, e.pos.pos) && has_node(s, p) && call_ensures(
            is_passable,
            (Some(d), e.pos.pos),
            true,
        ),
        None => starts.contains(e.pos.pos),
    }
}

proof fn lemma_visited_lookup_in(s: Seq<Entry>, p: CPos)
    ensures
        visited_lookup(s, p) matches Some(e) ==> e.pos == p && s.contains(e),
    decreases s.len(),
{
    if s.len() > 0 {
        lemma_visited_lookup_in(s.drop_last(), p);
        if s.last().pos != p {
            if let Some(e) = visited_lookup(s.drop_last(), p) {
                let k = choose|k: int| 0 <= k < s.drop_last().len() && s.drop_last()[k] == e;
                assert(s[k] == e);
            }
        } else {
            assert(s[s.len() - 1] == s.last());
        }
    }
}

proof fn lemma_visited_update(s: Seq<Entry>, i: int, e: Entry, q: CPos)
    requires
        0 <= i < s.len(),
        s[i].pos == e.pos,
    ensures
        has_node(s, q) ==> has_node(s.update(i, e), q),
        has_node(s.update(i, e), e.pos),
    decreases s.len(),
{
    let u = s.update(i, e);
    if i == s.len() - 1 {
        assert(u.drop_last() =~= s.drop_last());
    } else {
        assert(u.drop_last() =~= s.drop_last().update(i, e));
        lemma_visited_update(s.drop_last(), i, e, q);
        if u.last().pos != e.pos {
            lemma_visited_update(s.drop_last(), i, e, e.pos);
        }
    }
}

/// Finds the index of the entry stored for `p`.
fn visited_find(visited: &Vec<Entry>, p: &CPos) -> (r: Option<usize>)
    ensures
        r is None ==> visited_lookup(visited@, *p) is None,
        r matches Some(i) ==> i < visited@.len() && visited@[i as int].pos == *p
            && visited_lookup(visited@, *p) == Some(visited@[i as int]) && forall|j: int|
            i < j < visited@.len() ==> visited@[j].pos != *p,
{
    let mut i = visited.len();
    proof {
        assert(visited@.take(i as int) =~= visited@);
    }
    while i > 0
        invariant
            i <= visited@.len(),
            visited_lookup(visited@, *p) == visited_lookup(visited@.take(i as int), *p),
            forall|j: int| i <= j < visited@.len() ==> visited@[j].pos != *p,
        decreases i,
    {
        proof {
            assert(visited@.take(i as int).drop_last() =~= visited@.take(i - 1));
        }
        if cpos_eq(&visited[i - 1].pos, p) {
            return Some(i - 1);
        }
        i = i - 1;
    }
    None
}

/// Stores `e` for its node, replacing an entry already stored for it.
fn visited_insert(visited: &mut Vec<Entry>, e: Entry)
    ensures
        forall|q: CPos| has_node(old(visited)@, q) ==> #[trigger] has_node(final(visited)@, q),
        visited_lookup(final(visited)@, e.pos) == Some(e),
        drawn_from(final(visited)@, old(visited)@.push(e)),
        forall|q: CPos| q != e.pos ==> #[trigger] visited_lookup(final(visited)@, q) == visited_lookup(old(visited)@, q),
{
    match visited_find(visited, &e.pos) {
        Some(i) => {
            let ghost s = visited@;
            visited.set(i, e);
            proof {
                assert forall|q: CPos| has_node(s, q) implies #[trigger] has_node(visited@, q) by {
                    lemma_visited_update(s, i as int, e, q);
                }
                lemma_visited_update_lookup(s, i as int, e);
                assert forall|q: CPos| q != e.pos implies #[trigger] visited_lookup(visited@, q) == visited_lookup(s, q) by {
                    lemma_visited_update_other(s, i as int, e, q);
                }
                assert forall|k: int| 0 <= k < visited@.len() implies s.push(e).contains(#[trigger] visited@[k]) by {
                    if k == i {
                        assert(s.push(e)[s.len() as int] == e);
                    } else {
                        assert(s.push(e)[k] == visited@[k]);
                    }
                }
            }
        },
        None => {
            let ghost s = visited@;
            visited.push(e);
            proof {
                assert(visited@.drop_last() =~= s);
                assert forall|q: CPos| has_node(s, q) implies #[trigger] has_node(visited@, q) by {
                }
                assert forall|k: int| 0 <= k < visited@.len() implies s.push(e).contains(#[trigger] visited@[k]) by {
                    assert(s.push(e)[k] == visited@[k]);
                }
            }
        },
    }
}

proof fn lemma_visited_update_other(s: Seq<Entry>, i: int, e: Entry, q: CPos)
    requires
        0 <= i < s.len(),
        s[i].pos == e.pos,
        q != e.pos,
    ensures
        visited_lookup(s.update(i, e), q) == visited_lookup(s, q),
    decreases s.len(),
{
    let u = s.update(i, e);
    if i == s.len() - 1 {
        assert(u.drop_last() =~= s.drop_last());
    } else {
        assert(u.drop_last() =~= s.drop_last().update(i, e));
        lemma_visited_update_other(s.drop_last(), i, e, q);
    }
}

proof fn lemma_visited_update_lookup(s: Seq<Entry>, i: int, e: Entry)
    requires
        0 <= i < s.len(),
        s[i].pos == e.pos,
        visited_lookup(s, e.pos) == Some(s[i]),
        forall|j: int| i < j < s.len() ==> s[j].pos != e.pos,
    ensures
        visited_lookup(s.update(i, e), e.pos) == Some(e),
    decreases s.len(),
{
    let u = s.update(i, e);
    if i == s.len() - 1 {
    } else {
        assert(u.drop_last() =~= s.drop_last().update(i, e));
        assert(s.last().pos != e.pos);
        lemma_visited_update_lookup(s.drop_last(), i, e);
    }
}

/// A heap item is an entry keyed by its own distance, reached in one step from a visited
/// node, no farther than `bound`.
spec fn heap_item_ok(s: Seq<Entry>, x: (usize, Entry), bound: int) -> bool {
    &&& x.0 == x.1.dist
    &&& x.1.dist <= bound
    &&& heap_entry_ok(s, x.1)
}

/// One step from `p` in direction `d`, unless it leaves the coordinate range.
fn step(p: Pos, d: Direction) -> (r: Option<Pos>)
    ensures
        r matches Some(q) ==> step_to(p, d, q),
        r is None <==> !(i32::MIN <= p[0] + dir_vec(d).0 <= i32::MAX && i32::MIN <= p[1] + dir_vec(d).1 <= i32::MAX),
{
    let v = d.to_vec();
    match (p[0].checked_add(v[0]), p[1].checked_add(v[1])) {
        (Some(x), Some(y)) => Some([x, y]),
        _ => None,
    }
}

/// The tile one step from `p` in direction `d`, as coordinates.
spec fn stepped(p: Pos, d: Direction) -> Pos {
    [(p[0] + dir_vec(d).0) as i32, (p[1] + dir_vec(d).1) as i32]
}

/// Whether the step from `p` in direction `d` stays in the coordinate range.
spec fn step_in_range(p: Pos, d: Direction) -> bool {
    &&& i32::MIN <= p[0] + dir_vec(d).0 <= i32::MAX
    &&& i32::MIN <= p[1] + dir_vec(d).1 <= i32::MAX
}

/// The neighbour of `pos` in direction `d` was dealt with: `should_expand` gave a level target
/// for it that blocks it, or the step leaves the coordinates, or its node on that level was
/// visited at `dist` or closer, or the heap holds the entry one farther than `dist` that comes
/// from `pos` in direction `d`.
spec fn neighbor_handled<E: Fn(Direction, CPos, Option<Direction>) -> LevelTarget>(
    heap: Seq<(usize, Entry)>,
    visited: Seq<Entry>,
    pos: CPos,
    dist: usize,
    from: Option<Direction>,
    should_expand: E,
    d: Direction,
) -> bool {
    exists|lt: LevelTarget|
        #[trigger] call_ensures(should_expand, (d, pos, from), lt) && {
            let q = CPos { pos: stepped(pos.pos, d), level: lt is Two };
            ||| lt is Blocked
            ||| !step_in_range(pos.pos, d)
            ||| visited_lookup(visited, q) matches Some(v) && v.dist <= dist
            ||| heap.contains(((dist + 1) as usize, Entry { pos: q, dist: (dist + 1) as usize, from: Some((d, pos)) }))
        }
}

/// A heap item that expanding `pos` (reached at `dist`, coming from `from`) brings in: one
/// farther, one step away in a direction `should_expand` did not block, on the level it gave,
/// coming from `pos`, and not visited at `dist` or closer.
spec fn new_item_ok<E: Fn(Direction, CPos, Option<Direction>) -> LevelTarget>(
    visited: Seq<Entry>,
    pos: CPos,
    dist: usize,
    from: Option<Direction>,
    should_expand: E,
    x: (usize, Entry),
) -> bool {
    &&& x.0 == dist + 1
    &&& x.1.dist == dist + 1
    &&& exists|d: Direction, lt: LevelTarget|
        #[trigger] call_ensures(should_expand, (d, pos, from), lt) && {
            &&& !(lt is Blocked)
            &&& x.1.pos == CPos { pos: stepped(pos.pos, d), level: lt is Two }
            &&& x.1.from == Some((d, pos))
            &&& step_to(pos.pos, d, x.1.pos.pos)
            &&& !(visited_lookup(visited, x.1.pos) matches Some(v) && v.dist <= dist)
        }
}

/// The heap item for entry `e` one farther than `dist`.
spec fn item_of(dist: usize, e: Entry) -> (usize, Entry) {
    ((dist + 1) as usize, e)
}

/// Pushes the neighbours of `pos` that the search should expand to, skipping nodes already
/// visited at a distance no greater than `dist`.
fn insert_neighbors<E: Fn(Direction, CPos, Option<Direction>) -> LevelTarget>(
    heap: &mut DistHeap<Entry>,
    visited: &Vec<Entry>,
    pos: CPos,
    dist: usize,
    from: Option<Direction>,
    should_expand: &E,
)
    requires
        old(heap).wf(),
        has_node(visited@, pos),
        dist < usize::MAX,
        forall|d: Direction, c: CPos, f: Option<Direction>| call_requires(*should_expand, (d, c, f)),
    ensures
        final(heap).wf(),
        forall|x: (usize, Entry)| old(heap).elems().contains(x) ==> #[trigger] final(heap).elems().contains(x),
        forall|i: int|
            0 <= i < final(heap).elems().len() ==> old(heap).elems().contains(
                #[trigger] final(heap).elems()[i],
            ) || heap_item_ok(visited@, final(heap).elems()[i], dist + 1),
        forall|d: Direction| #[trigger]
            neighbor_handled(final(heap).elems(), visited@, pos, dist, from, *should_expand, d),
        forall|i: int|
            0 <= i < final(heap).elems().len() ==> old(heap).elems().contains(#[trigger] final(heap).elems()[i])
                || new_item_ok(visited@, pos, dist, from, *should_expand, final(heap).elems()[i]),
        potential(final(heap).elems()) <= potential(old(heap).elems()) + 4 * pow5((usize::MAX - dist - 1) as nat),
{
    let dirs = Direction::all();
    let mut i: usize = 0;
    while i < 4
        invariant
            i <= 4,
            dirs@ == seq![Direction::Left, Direction::Up, Direction::Right, Direction::Down],
            has_node(visited@, pos),
            dist < usize::MAX,
            heap.wf(),
            forall|d: Direction, c: CPos, f: Option<Direction>| call_requires(*should_expand, (d, c, f)),
            forall|x: (usize, Entry)| old(heap).elems().contains(x) ==> #[trigger] heap.elems().contains(x),
            forall|k: int|
                0 <= k < heap.elems().len() ==> old(heap).elems().contains(#[trigger] heap.elems()[k])
                    || heap_item_ok(visited@, heap.elems()[k], dist + 1),
            forall|k: int| 0 <= k < i ==> #[trigger]
                neighbor_handled(heap.elems(), visited@, pos, dist, from, *should_expand, dirs@[k]),
            forall|k: int|
                0 <= k < heap.elems().len() ==> old(heap).elems().contains(#[trigger] heap.elems()[k])
                    || new_item_ok(visited@, pos, dist, from, *should_expand, heap.elems()[k]),
            potential(heap.elems()) <= potential(old(heap).elems()) + i * pow5((usize::MAX - dist - 1) as nat),
        decreases 4 - i,
    {
        let dir = dirs[i];
        let lt = should_expand(dir, pos, from);
        let ghost before = heap.elems();
        let ghost q = CPos { pos: stepped(pos.pos, dir), level: lt is Two };
        if !matches!(lt, LevelTarget::Blocked) {
            let level = matches!(lt, LevelTarget::Two);
            match step(pos.pos, dir) {
                Some(next) => {
                    proof {
                        assert(next[0] == stepped(pos.pos, dir)[0] && next[1] == stepped(pos.pos, dir)[1]);
                        assert(next@ =~= stepped(pos.pos, dir)@);
                        assert(next == stepped(pos.pos, dir));
                        assert(level == (lt is Two));
                    }
                    let next_pos = CPos { pos: next, level };
                    let skip = match visited_find(visited, &next_pos) {
                        Some(k) => visited[k].dist <= dist,
                        None => false,
                    };
                    if !skip {
                        let e = Entry { pos: next_pos, dist: dist + 1, from: Some((dir, pos)) };
                        heap.push(dist + 1, e);
                        proof {
                            broadcast use vstd::seq_lib::to_multiset_contains, vstd::multiset::group_multiset_axioms;
                            assert(next_pos == q);
                            assert forall|x: (usize, Entry)| before.contains(x) implies #[trigger] heap.elems().contains(x) by {
                                assert(before.to_multiset().count(x) > 0);
                                assert(heap.elems().to_multiset().count(x) > 0);
                            }
                            assert(heap.elems().to_multiset().count(((dist + 1) as usize, e)) > 0);
                            assert(heap.elems().contains(((dist + 1) as usize, e)));
                            assert forall|k: int|
                                0 <= k < heap.elems().len() implies old(heap).elems().contains(#[trigger] heap.elems()[k])
                                    || heap_item_ok(visited@, heap.elems()[k], dist + 1) by {
                                let x = heap.elems()[k];
                                let item: (usize, Entry) = ((dist + 1) as usize, e);
                                assert(before.push(item).contains(x));
                                let j = choose|j: int| 0 <= j < before.push(item).len() && before.push(item)[j] == x;
                                if j < before.len() {
                                    assert(before[j] == x);
                                }
                            }
                            assert(new_item_ok(visited@, pos, dist, from, *should_expand, ((dist + 1) as usize, e))) by {
                                assert(call_ensures(*should_expand, (dir, pos, from), lt));
                            }
                            assert forall|k: int|
                                0 <= k < heap.elems().len() implies old(heap).elems().contains(#[trigger] heap.elems()[k])
                                    || new_item_ok(visited@, pos, dist, from, *should_expand, heap.elems()[k]) by {
                                let x = heap.elems()[k];
                                let item: (usize, Entry) = ((dist + 1) as usize, e);
                                assert(before.push(item).contains(x));
                                let j = choose|j: int| 0 <= j < before.push(item).len() && before.push(item)[j] == x;
                                if j < before.len() {
                                    assert(before[j] == x);
                                }
                            }
                            broadcast use vstd::seq_lib::to_multiset_build;
                            assert(heap.elems().to_multiset() == before.push(item_of(dist, e)).to_multiset());
                            lemma_potential_multiset(heap.elems(), before.push(item_of(dist, e)));
                            assert(before.push(item_of(dist, e)).drop_last() =~= before);
                        }
                    } else {
                        proof {
                            assert(next_pos == q);
                        }
                    }
                },
                None => {},
            }
        }
        proof {
            let w = pow5((usize::MAX - dist - 1) as nat);
            assert((i + 1) * w == i * w + w) by (nonlinear_arith);
            assert(neighbor_handled(heap.elems(), visited@, pos, dist, from, *should_expand, dir));
            assert forall|k: int| 0 <= k < i implies #[trigger]
                neighbor_handled(heap.elems(), visited@, pos, dist, from, *should_expand, dirs@[k]) by {
                assert(neighbor_handled(before, visited@, pos, dist, from, *should_expand, dirs@[k]));
                let lt2 = choose|lt2: LevelTarget|
                    #[trigger] call_ensures(*should_expand, (dirs@[k], pos, from), lt2) && {
                        let q2 = CPos { pos: stepped(pos.pos, dirs@[k]), level: lt2 is Two };
                        ||| lt2 is Blocked
                        ||| !step_in_range(pos.pos, dirs@[k])
                        ||| visited_lookup(visited@, q2) matches Some(v) && v.dist <= dist
                        ||| before.contains(((dist + 1) as usize, Entry { pos: q2, dist: (dist + 1) as usize, from: Some((dirs@[k], pos)) }))
                    };
                let q2 = CPos { pos: stepped(pos.pos, dirs@[k]), level: lt2 is Two };
                if before.contains(((dist + 1) as usize, Entry { pos: q2, dist: (dist + 1) as usize, from: Some((dirs@[k], pos)) })) {
                    assert(heap.elems().contains(((dist + 1) as usize, Entry { pos: q2, dist: (dist + 1) as usize, from: Some((dirs@[k], pos)) })));
                }
            }
        }
        i = i + 1;
    }
    proof {
        assert forall|d: Direction| #[trigger]
            neighbor_handled(heap.elems(), visited@, pos, dist, from, *should_expand, d) by {
            match d {
                Direction::Left => assert(dirs@[0] == d),
                Direction::Up => assert(dirs@[1] == d),
                Direction::Right => assert(dirs@[2] == d),
                Direction::Down => assert(dirs@[3] == d),
            }
        }
    }
}

/// The link of entry `e` leads to a node ranked below `e`'s own node.
spec fn links_down(rank: Map<CPos, nat>, e: Entry) -> bool {
    e.from matches Some((_, q)) ==> rank.dom().contains(q) && rank.dom().contains(e.pos) && rank[q] < rank[e.pos]
}

/// The ranked nodes are the visited ones, each ranked below `counter`.
spec fn rank_covers(v: Seq<Entry>, rank: Map<CPos, nat>, counter: nat) -> bool {
    &&& forall|c: CPos| #[trigger] has_node(v, c) ==> rank.dom().contains(c) && rank[c] < counter
    &&& forall|c: CPos| #[trigger] rank.dom().contains(c) ==> has_node(v, c)
}

/// A heap item for a node already visited links down in rank.
spec fn item_links_down(v: Seq<Entry>, rank: Map<CPos, nat>, x: (usize, Entry)) -> bool {
    has_node(v, x.1.pos) ==> links_down(rank, x.1)
}

spec fn heap_links_down(v: Seq<Entry>, h: Seq<(usize, Entry)>, rank: Map<CPos, nat>) -> bool {
    forall|k: int| 0 <= k < h.len() ==> #[trigger] item_links_down(v, rank, h[k])
}

/// Storing entry `e` keeps the ranks of the nodes visited before and gives a node visited the
/// first time the next rank: every stored link, and every heap item for a visited node, still
/// leads down in rank.
proof fn lemma_rank_visit(
    v0: Seq<Entry>,
    v1: Seq<Entry>,
    h: Seq<(usize, Entry)>,
    rank: Map<CPos, nat>,
    counter: nat,
    e: Entry,
) -> (rc: (Map<CPos, nat>, nat))
    requires
        drawn_from(v1, v0.push(e)),
        forall|q: CPos| has_node(v0, q) ==> #[trigger] has_node(v1, q),
        has_node(v1, e.pos),
        rank_covers(v0, rank, counter),
        forall|k: int| 0 <= k < v0.len() ==> links_down(rank, #[trigger] v0[k]),
        heap_links_down(v0, h, rank),
        forall|k: int| 0 <= k < h.len() ==> heap_entry_ok(v0, (#[trigger] h[k]).1),
        e.from matches Some((_, q)) ==> has_node(v0, q) && (has_node(v0, e.pos) ==> rank[q] < rank[e.pos]),
    ensures
        rank_covers(v1, rc.0, rc.1),
        forall|k: int| 0 <= k < v1.len() ==> links_down(rc.0, #[trigger] v1[k]),
        heap_links_down(v1, h, rc.0),
{
    let fresh = !has_node(v0, e.pos);
    let r = if fresh { rank.insert(e.pos, counter) } else { rank };
    let c = if fresh { counter + 1 } else { counter };
    assert forall|cc: CPos| #[trigger] has_node(v1, cc) implies r.dom().contains(cc) && r[cc] < c by {
        lemma_visited_after_insert(v0, v1, e, cc);
        if has_node(v0, cc) {
            assert(rank.dom().contains(cc) && rank[cc] < counter);
        }
    }
    assert forall|cc: CPos| #[trigger] r.dom().contains(cc) implies has_node(v1, cc) by {
        if cc != e.pos {
            assert(rank.dom().contains(cc));
            assert(has_node(v0, cc));
        }
    }
    assert forall|k: int| 0 <= k < v1.len() implies links_down(r, #[trigger] v1[k]) by {
        let x = v1[k];
        assert(v0.push(e).contains(x));
        let j = choose|j: int| 0 <= j < v0.push(e).len() && v0.push(e)[j] == x;
        if j < v0.len() {
            assert(v0[j] == x);
            assert(links_down(rank, v0[j]));
        } else {
            assert(x == e);
            if let Some((_, q)) = e.from {
                assert(rank.dom().contains(q) && rank[q] < counter);
            }
        }
    }
    assert forall|k: int| 0 <= k < h.len() implies #[trigger] item_links_down(v1, r, h[k]) by {
        let y = h[k];
        assert(heap_entry_ok(v0, y.1));
        if has_node(v1, y.1.pos) {
            lemma_visited_after_insert(v0, v1, e, y.1.pos);
            if has_node(v0, y.1.pos) {
                assert(item_links_down(v0, rank, h[k]));
            } else {
                if let Some((_, q)) = y.1.from {
                    assert(rank.dom().contains(q) && rank[q] < counter);
                }
            }
        }
    }
    (r, c)
}

/// Heap items that expanding a node at `dist` brings in are for nodes not visited yet, when
/// no node was visited farther than `dist`.
proof fn lemma_new_items_unvisited<E: Fn(Direction, CPos, Option<Direction>) -> LevelTarget>(
    v: Seq<Entry>,
    h0: Seq<(usize, Entry)>,
    h1: Seq<(usize, Entry)>,
    pos: CPos,
    dist: usize,
    from: Option<Direction>,
    should_expand: E,
)
    requires
        forall|k: int| 0 <= k < v.len() ==> (#[trigger] v[k]).dist <= dist,
        forall|i: int|
            0 <= i < h1.len() ==> h0.contains(#[trigger] h1[i]) || new_item_ok(v, pos, dist, from, should_expand, h1[i]),
    ensures
        forall|i: int| 0 <= i < h1.len() ==> h0.contains(#[trigger] h1[i]) || !has_node(v, h1[i].1.pos),
{
    assert forall|i: int| 0 <= i < h1.len() implies h0.contains(#[trigger] h1[i]) || !has_node(v, h1[i].1.pos) by {
        let y = h1[i];
        if !h0.contains(y) && has_node(v, y.1.pos) {
            assert(new_item_ok(v, pos, dist, from, should_expand, y));
            lemma_visited_lookup_in(v, y.1.pos);
            let vv = visited_lookup(v, y.1.pos)->Some_0;
            let j = choose|j: int| 0 <= j < v.len() && v[j] == vv;
            assert(v[j].dist <= dist);
        }
    }
}

/// The heap items that expanding a node at `dist` brings in keep every item for a visited
/// node linking down in rank, when no node was visited farther than `dist`.
proof fn lemma_rank_expand<E: Fn(Direction, CPos, Option<Direction>) -> LevelTarget>(
    v: Seq<Entry>,
    h0: Seq<(usize, Entry)>,
    h1: Seq<(usize, Entry)>,
    rank: Map<CPos, nat>,
    pos: CPos,
    dist: usize,
    from: Option<Direction>,
    should_expand: E,
)
    requires
        heap_links_down(v, h0, rank),
        forall|k: int| 0 <= k < v.len() ==> (#[trigger] v[k]).dist <= dist,
        forall|i: int|
            0 <= i < h1.len() ==> h0.contains(#[trigger] h1[i]) || new_item_ok(v, pos, dist, from, should_expand, h1[i]),
    ensures
        heap_links_down(v, h1, rank),
{
    lemma_new_items_unvisited(v, h0, h1, pos, dist, from, should_expand);
    assert forall|k: int| 0 <= k < h1.len() implies #[trigger] item_links_down(v, rank, h1[k]) by {
        let y = h1[k];
        if h0.contains(y) {
            let j = choose|j: int| 0 <= j < h0.len() && h0[j] == y;
            assert(item_links_down(v, rank, h0[j]));
        }
    }
}

/// Follows the `from` links back from the goal entry to a start. The links lead down in rank,
/// so the walk back ends.
fn reconstruct<P: Fn(Option<Direction>, Pos) -> bool>(
    visited: &Vec<Entry>,
    next: Entry,
    Ghost(starts): Ghost<Seq<Pos>>,
    Ghost(is_passable): Ghost<P>,
    Ghost(rank): Ghost<Map<CPos, nat>>,
    Ghost(counter): Ghost<nat>,
    Ghost(exact): Ghost<bool>,
    Ghost(flat): Ghost<bool>,
) -> (path: Vec<Pos>)
    requires
        has_node(visited@, next.pos) ==> links_down(rank, next),
        flat ==> !next.pos.level && forall|k: int| 0 <= k < visited@.len() ==> !(#[trigger] visited@[k]).pos.level,
        exact ==> forall|k: int| 0 <= k < visited@.len() ==> link_dist_ok(visited@, #[trigger] visited@[k]),
        exact ==> link_dist_ok(visited@, next),
        forall|k: int|
            0 <= k < visited@.len() ==> visited_entry_ok(visited@, starts, is_passable, #[trigger] visited@[k]),
        forall|k: int| 0 <= k < visited@.len() ==> links_down(rank, #[trigger] visited@[k]),
        rank_covers(visited@, rank, counter),
        next.from is Some,
        visited_entry_ok(visited@, starts, is_passable, next),
    ensures
        path@.len() >= 2,
        path@[0] == next.pos.pos,
        starts.contains(path@.last()),
        forall|k: int|
            0 <= k < path@.len() - 1 ==> exists|d: Direction|
                step_to(path@[k + 1], d, #[trigger] path@[k]) && call_ensures(
                    is_passable,
                    (Some(d), path@[k]),
                    true,
                ),
        exact ==> path@.len() == next.dist + 1,
        flat ==> path@.no_duplicates(),
{
    let mut nodes: Vec<Pos> = Vec::new();
    nodes.push(next.pos.pos);
    let mut cursor = next;
    let ghost m0: nat = if has_node(visited@, next.pos) { rank[next.pos] } else { counter };
    let ghost mut m: nat = m0;
    let ghost mut cs: Seq<CPos> = seq![next.pos];
    let ghost mut ms: Seq<nat> = seq![m0];
    proof {
        let q = next.from->Some_0.1;
        assert(has_node(visited@, q));
    }
    loop
        invariant
            forall|k: int|
                0 <= k < visited@.len() ==> visited_entry_ok(visited@, starts, is_passable, #[trigger] visited@[k]),
            forall|k: int| 0 <= k < visited@.len() ==> links_down(rank, #[trigger] visited@[k]),
            rank_covers(visited@, rank, counter),
            nodes@.len() >= 1,
            next.from is Some,
            nodes@[0] == next.pos.pos,
            nodes@.last() == cursor.pos.pos,
            visited_entry_ok(visited@, starts, is_passable, cursor),
            cursor == next || nodes@.len() >= 2,
            cursor.from matches Some((_, q)) ==> rank.dom().contains(q) && rank[q] < m,
            exact ==> forall|k: int| 0 <= k < visited@.len() ==> link_dist_ok(visited@, #[trigger] visited@[k]),
            exact ==> link_dist_ok(visited@, cursor) && nodes@.len() + cursor.dist == next.dist + 1,
            has_node(visited@, next.pos) ==> links_down(rank, next),
            flat ==> !next.pos.level && forall|k: int| 0 <= k < visited@.len() ==> !(#[trigger] visited@[k]).pos.level,
            m0 == (if has_node(visited@, next.pos) { rank[next.pos] } else { counter }),
            cs.len() == nodes@.len(),
            ms.len() == nodes@.len(),
            cs[0] == next.pos,
            ms[0] == m0,
            cs.last() == cursor.pos,
            ms.last() == m,
            forall|k: int| 0 <= k < nodes@.len() ==> nodes@[k] == (#[trigger] cs[k]).pos,
            forall|k: int| 1 <= k < cs.len() ==> has_node(visited@, #[trigger] cs[k]) && rank[cs[k]] == ms[k],
            forall|k: int, l: int| 0 <= k < l < ms.len() ==> #[trigger] ms[l] < #[trigger] ms[k],
            flat ==> forall|k: int| 0 <= k < cs.len() ==> !(#[trigger] cs[k]).level,
            forall|k: int|
                0 <= k < nodes@.len() - 1 ==> exists|d: Direction|
                    step_to(nodes@[k + 1], d, #[trigger] nodes@[k]) && call_ensures(
                        is_passable,
                        (Some(d), nodes@[k]),
                        true,
                    ),
        decreases m,
    {
        match cursor.from {
            None => {
                proof {
                    assert(cursor != next);
                    assert(starts.contains(cursor.pos.pos));
                    if flat {
                        assert forall|k: int, l: int| 0 <= k < l < nodes@.len() implies nodes@[k] != nodes@[l] by {
                            assert(ms[l] < ms[k]);
                            assert(cs[l] != cs[k]);
                            assert(!cs[k].level && !cs[l].level);
                            assert(nodes@[k] == cs[k].pos && nodes@[l] == cs[l].pos);
                        }
                    }
                }
                return nodes;
            },
            Some((d, p)) => {
                match visited_find(visited, &p) {
                    Some(i) => {
                        let e = visited[i];
                        let ghost before = nodes@;
                        nodes.push(e.pos.pos);
                        proof {
                            lemma_visited_lookup_in(visited@, p);
                            assert(e.pos == p);
                            assert(links_down(rank, visited@[i as int]));
                            if exact {
                                assert(link_dist_ok(visited@, visited@[i as int]));
                            }
                            assert forall|k: int| 0 <= k < nodes@.len() - 1 implies exists|dd: Direction|
                                step_to(nodes@[k + 1], dd, #[trigger] nodes@[k]) && call_ensures(
                                    is_passable,
                                    (Some(dd), nodes@[k]),
                                    true,
                                ) by {
                                if k < before.len() - 1 {
                                    assert(nodes@[k] == before[k] && nodes@[k + 1] == before[k + 1]);
                                } else {
                                    assert(nodes@[k] == cursor.pos.pos);
                                    assert(nodes@[k + 1] == p.pos);
                                    assert(step_to(nodes@[k + 1], d, nodes@[k]));
                                }
                            }
                            if flat {
                                assert(!visited@[i as int].pos.level);
                            }
                            m = rank[p];
                            cs = cs.push(p);
                            ms = ms.push(rank[p]);
                        }
                        cursor = e;
                    },
                    None => {
                        proof {
                            assert(has_node(visited@, p));
                        }
                        return nodes;
                    },
                }
            },
        }
    }
}

/// Tile `w[i + 1]` of a walk is one step from tile `w[i]`.
pub open spec fn walk_step(w: Seq<Pos>, i: int) -> bool {
    exists|d: Direction| #[trigger] step_to(w[i], d, w[i + 1])
}

/// A walk from one of the starts: every tile one step from the one before.
pub open spec fn walk_from(starts: Seq<Pos>, w: Seq<Pos>) -> bool {
    &&& w.len() >= 1
    &&& starts.contains(w[0])
    &&& forall|i: int| 0 <= i < w.len() - 1 ==> #[trigger] walk_step(w, i)
}

/// The passability test may hold on tile `p`, coming from some direction.
pub open spec fn may_pass<P: Fn(Option<Direction>, Pos) -> bool>(is_passable: P, p: Pos) -> bool {
    exists|f: Option<Direction>| #[trigger] call_ensures(is_passable, (f, p), true)
}

/// The passability test holds on tile `w[i]` of a walk entered from tile `w[i - 1]`.
pub open spec fn passes_into<P: Fn(Option<Direction>, Pos) -> bool>(is_passable: P, w: Seq<Pos>, i: int) -> bool {
    forall|d: Direction, r: bool|
        step_to(w[i - 1], d, w[i]) && #[trigger] call_ensures(is_passable, (Some(d), w[i]), r) ==> r
}

/// The goal test holds on tile `p`.
pub open spec fn surely_goal<G: Fn(Pos) -> bool>(goal: G, p: Pos) -> bool {
    forall|r: bool| #[trigger] call_ensures(goal, (p,), r) ==> r
}

/// A walk that the search must find: from a start, through tiles that pass when entered from
/// the tile before, to a goal tile that is not a start.
pub open spec fn admissible_walk<G: Fn(Pos) -> bool, P: Fn(Option<Direction>, Pos) -> bool>(
    starts: Seq<Pos>,
    w: Seq<Pos>,
    goal: G,
    is_passable: P,
) -> bool {
    &&& walk_from(starts, w)
    &&& w.len() >= 2
    &&& forall|i: int| 1 <= i < w.len() ==> #[trigger] passes_into(is_passable, w, i)
    &&& surely_goal(goal, w.last())
    &&& !starts.contains(w.last())
}

/// More tiles than distances can count lie open: a walk from a start of `usize::MAX` steps,
/// no tile twice, over tiles the passability test may let through.
pub open spec fn vast_region<P: Fn(Option<Direction>, Pos) -> bool>(starts: Seq<Pos>, is_passable: P) -> bool {
    exists|w: Seq<Pos>|
        #[trigger] walk_from(starts, w) && w.len() == usize::MAX + 1 && w.no_duplicates() && forall|i: int|
            1 <= i < w.len() ==> may_pass(is_passable, #[trigger] w[i])
}

/// From start `s` the search can step in direction `d` onto tile `g`, which is no start: it
/// expands that way from a start whatever it is asked, and `g` passes entered any way and is
/// a goal.
pub open spec fn next_to_goal<G: Fn(Pos) -> bool, P: Fn(Option<Direction>, Pos) -> bool, E: Fn(Direction, CPos, Option<Direction>) -> LevelTarget>(
    starts: Seq<Pos>,
    s: Pos,
    d: Direction,
    g: Pos,
    goal: G,
    is_passable: P,
    should_expand: E,
) -> bool {
    &&& starts.contains(s)
    &&& step_to(s, d, g)
    &&& !starts.contains(g)
    &&& forall|lt: LevelTarget| #[trigger] call_ensures(should_expand, (d, CPos { pos: s, level: false }, None::<Direction>), lt)
        ==> !(lt is Blocked)
    &&& forall|f: Option<Direction>, r: bool| #[trigger] call_ensures(is_passable, (f, g), r) ==> r
    &&& surely_goal(goal, g)
}

/// The heap holds an item one step from a start for tile `g`.
spec fn heap_at_one(h: Seq<(usize, Entry)>, g: Pos) -> bool {
    exists|k: int| 0 <= k < h.len() && (#[trigger] h[k]).1.pos.pos == g && h[k].0 == 1
}

/// A start's item for a tile next to it that is a goal was pushed when the start was expanded.
proof fn lemma_next_goal_pushed<G: Fn(Pos) -> bool, P: Fn(Option<Direction>, Pos) -> bool, E: Fn(Direction, CPos, Option<Direction>) -> LevelTarget>(
    starts: Seq<Pos>,
    v: Seq<Entry>,
    h: Seq<(usize, Entry)>,
    s: Pos,
    d: Direction,
    g: Pos,
    goal: G,
    is_passable: P,
    should_expand: E,
)
    requires
        next_to_goal(starts, s, d, g, goal, is_passable, should_expand),
        neighbor_handled(h, v, CPos { pos: s, level: false }, 0, None, should_expand, d),
        forall|k: int| 0 <= k < v.len() ==> starts.contains((#[trigger] v[k]).pos.pos) && !v[k].pos.level,
    ensures
        heap_at_one(h, g),
{
    let pos = CPos { pos: s, level: false };
    let lt = choose|lt: LevelTarget|
        #[trigger] call_ensures(should_expand, (d, pos, None::<Direction>), lt) && {
            let q = CPos { pos: stepped(pos.pos, d), level: lt is Two };
            ||| lt is Blocked
            ||| !step_in_range(pos.pos, d)
            ||| visited_lookup(v, q) matches Some(vv) && vv.dist <= 0
            ||| h.contains(((0 + 1) as usize, Entry { pos: q, dist: (0 + 1) as usize, from: Some((d, pos)) }))
        };
    lemma_stepped(s, d, g);
    let q = CPos { pos: stepped(pos.pos, d), level: lt is Two };
    assert(q.pos == g);
    if visited_lookup(v, q) is Some {
        lemma_visited_lookup_in(v, q);
        let vv = visited_lookup(v, q)->Some_0;
        let k = choose|k: int| 0 <= k < v.len() && v[k] == vv;
        assert(starts.contains(v[k].pos.pos));
    }
    let item = (1usize, Entry { pos: q, dist: 1usize, from: Some((d, pos)) });
    assert(h.contains(item));
    let k = choose|k: int| 0 <= k < h.len() && h[k] == item;
    assert(h[k].1.pos.pos == g && h[k].0 == 1);
}

proof fn lemma_heap_at_one_grow(h0: Seq<(usize, Entry)>, h1: Seq<(usize, Entry)>, g: Pos)
    requires
        heap_at_one(h0, g),
        forall|x: (usize, Entry)| h0.contains(x) ==> #[trigger] h1.contains(x),
    ensures
        heap_at_one(h1, g),
{
    let k = choose|k: int| 0 <= k < h0.len() && (#[trigger] h0[k]).1.pos.pos == g && h0[k].0 == 1;
    assert(h0.contains(h0[k]));
    assert(h1.contains(h0[k]));
    let i = choose|i: int| 0 <= i < h1.len() && h1[i] == h0[k];
    assert(h1[i].1.pos.pos == g && h1[i].0 == 1);
}

proof fn lemma_heap_at_one_pop(h0: Seq<(usize, Entry)>, h1: Seq<(usize, Entry)>, x: (usize, Entry), g: Pos)
    requires
        heap_at_one(h0, g),
        h1.to_multiset() == h0.to_multiset().remove(x),
        x.1.pos.pos != g,
    ensures
        heap_at_one(h1, g),
{
    broadcast use vstd::seq_lib::to_multiset_contains, vstd::multiset::group_multiset_axioms;

    let k = choose|k: int| 0 <= k < h0.len() && (#[trigger] h0[k]).1.pos.pos == g && h0[k].0 == 1;
    let y = h0[k];
    assert(h0.contains(y));
    assert(h0.to_multiset().count(y) > 0);
    assert(y != x);
    assert(h1.to_multiset().count(y) > 0);
    assert(h1.contains(y));
    let i = choose|i: int| 0 <= i < h1.len() && h1[i] == y;
    assert(h1[i].1.pos.pos == g && h1[i].0 == 1);
}

/// `should_expand` always expands, on the first level.
pub open spec fn levels_one<E: Fn(Direction, CPos, Option<Direction>) -> LevelTarget>(should_expand: E) -> bool {
    forall|d: Direction, c: CPos, f: Option<Direction>, lt: LevelTarget| #[trigger]
        call_ensures(should_expand, (d, c, f), lt) ==> lt == LevelTarget::One
}

/// Some heap item is for node `n`, entered in direction `d`.
spec fn heap_has(h: Seq<(usize, Entry)>, n: CPos, d: Direction) -> bool {
    exists|k: int| 0 <= k < h.len() && (#[trigger] h[k]).1.pos == n && h[k].1.from is Some && h[k].1.from->Some_0.0 == d
}

/// Item entry `e` is for node `n`, entered in direction `d`.
spec fn enters(e: Entry, n: CPos, d: Direction) -> bool {
    e.pos == n && e.from is Some && e.from->Some_0.0 == d
}

/// The first-level node one step from `c` in direction `d`.
spec fn neighbor_of(c: CPos, d: Direction) -> CPos {
    CPos { pos: stepped(c.pos, d), level: false }
}

/// The neighbour of `c` in direction `d` has been dealt with: the step leaves the coordinates,
/// or the neighbour is visited, or waits in the heap entered that way, or failed the
/// passability test entered that way.
spec fn closed_at<P: Fn(Option<Direction>, Pos) -> bool>(v: Seq<Entry>, h: Seq<(usize, Entry)>, is_passable: P, c: CPos, d: Direction) -> bool {
    ||| !step_in_range(c.pos, d)
    ||| has_node(v, neighbor_of(c, d))
    ||| heap_has(h, neighbor_of(c, d), d)
    ||| call_ensures(is_passable, (Some(d), stepped(c.pos, d)), false)
}

/// Every visited first-level node has all its neighbours dealt with.
spec fn all_closed<P: Fn(Option<Direction>, Pos) -> bool>(v: Seq<Entry>, h: Seq<(usize, Entry)>, is_passable: P) -> bool {
    forall|c: CPos, d: Direction| has_node(v, c) && !c.level ==> #[trigger] closed_at(v, h, is_passable, c, d)
}

/// A visited node is a start, or the goal test failed on it.
spec fn start_or_no_goal<G: Fn(Pos) -> bool>(starts: Seq<Pos>, goal: G, c: CPos) -> bool {
    (starts.contains(c.pos) && !c.level) || call_ensures(goal, (c.pos,), false)
}

/// `w` witnesses a heap item for tile `p` at distance `n`: a walk from a start of `n` steps
/// ending at `p`, no tile twice, every tile before `p` visited and, past the start, possibly
/// passable.
spec fn walk_fits<P: Fn(Option<Direction>, Pos) -> bool>(starts: Seq<Pos>, is_passable: P, v: Seq<Entry>, p: Pos, n: usize, w: Seq<Pos>) -> bool {
    &&& walk_from(starts, w)
    &&& w.len() == n + 1
    &&& w.last() == p
    &&& w.no_duplicates()
    &&& forall|i: int| 0 <= i < w.len() - 1 ==> has_node(v, CPos { pos: #[trigger] w[i], level: false })
    &&& forall|i: int| 1 <= i < w.len() - 1 ==> may_pass(is_passable, #[trigger] w[i])
}

spec fn walk_witness<P: Fn(Option<Direction>, Pos) -> bool>(starts: Seq<Pos>, is_passable: P, v: Seq<Entry>, p: Pos, n: usize) -> bool {
    exists|w: Seq<Pos>| #[trigger] walk_fits(starts, is_passable, v, p, n, w)
}

/// What the search keeps of every heap item when `should_expand` always expands on the first
/// level: the item is on the first level and a walk witnesses it.
spec fn items_witnessed<P: Fn(Option<Direction>, Pos) -> bool>(starts: Seq<Pos>, is_passable: P, v: Seq<Entry>, h: Seq<(usize, Entry)>) -> bool {
    forall|k: int|
        0 <= k < h.len() ==> !(#[trigger] h[k]).1.pos.level && walk_witness(starts, is_passable, v, h[k].1.pos.pos, h[k].0)
}

proof fn lemma_contains_has_node(s: Seq<Entry>, e: Entry)
    requires
        s.contains(e),
    ensures
        has_node(s, e.pos),
    decreases s.len(),
{
    if s.last().pos != e.pos {
        let k = choose|k: int| 0 <= k < s.len() && s[k] == e;
        assert(k < s.len() - 1);
        assert(s.drop_last()[k] == e);
        lemma_contains_has_node(s.drop_last(), e);
    }
}

/// The nodes visited after storing `e` are those visited before and `e`'s.
proof fn lemma_visited_after_insert(v0: Seq<Entry>, v1: Seq<Entry>, e: Entry, q: CPos)
    requires
        drawn_from(v1, v0.push(e)),
        has_node(v1, q),
    ensures
        has_node(v0, q) || q == e.pos,
        visited_lookup(v1, q) matches Some(x) ==> (v0.contains(x) || x == e),
{
    lemma_visited_lookup_in(v1, q);
    let x = visited_lookup(v1, q)->Some_0;
    assert(v0.push(e).contains(x));
    let k = choose|k: int| 0 <= k < v0.push(e).len() && v0.push(e)[k] == x;
    if k < v0.len() {
        assert(v0[k] == x);
        assert(v0.contains(x));
        lemma_contains_has_node(v0, x);
    }
}

/// Coordinates one step apart are the stepped position.
proof fn lemma_stepped(b: Pos, d: Direction, a: Pos)
    requires
        step_to(b, d, a),
    ensures
        step_in_range(b, d),
        stepped(b, d) == a,
{
    let s = stepped(b, d);
    assert(s[0] == a[0] && s[1] == a[1]);
    assert(s@ =~= a@);
}

/// Every tile of an admissible walk is visited once the heap is empty and all is closed.
proof fn lemma_walk_visited<G: Fn(Pos) -> bool, P: Fn(Option<Direction>, Pos) -> bool>(
    starts: Seq<Pos>,
    goal: G,
    is_passable: P,
    v: Seq<Entry>,
    w: Seq<Pos>,
    i: int,
)
    requires
        admissible_walk(starts, w, goal, is_passable),
        all_closed(v, Seq::<(usize, Entry)>::empty(), is_passable),
        forall|k: int| 0 <= k < starts.len() ==> has_node(v, CPos { pos: #[trigger] starts[k], level: false }),
        0 <= i < w.len(),
    ensures
        has_node(v, CPos { pos: w[i], level: false }),
    decreases i,
{
    if i == 0 {
        let k = choose|k: int| 0 <= k < starts.len() && starts[k] == w[0];
        assert(has_node(v, CPos { pos: starts[k], level: false }));
    } else {
        lemma_walk_visited(starts, goal, is_passable, v, w, i - 1);
        assert(walk_step(w, i - 1));
        let d = choose|d: Direction| #[trigger] step_to(w[i - 1], d, w[i]);
        lemma_stepped(w[i - 1], d, w[i]);
        let c = CPos { pos: w[i - 1], level: false };
        assert(closed_at(v, Seq::<(usize, Entry)>::empty(), is_passable, c, d));
        assert(passes_into(is_passable, w, i));
        if call_ensures(is_passable, (Some(d), stepped(c.pos, d)), false) {
            assert(call_ensures(is_passable, (Some(d), w[i]), false));
        }
        assert(neighbor_of(c, d) == CPos { pos: w[i], level: false });
    }
}

/// With the heap empty and all closed, no admissible walk exists.
proof fn lemma_complete<G: Fn(Pos) -> bool, P: Fn(Option<Direction>, Pos) -> bool>(
    starts: Seq<Pos>,
    goal: G,
    is_passable: P,
    v: Seq<Entry>,
)
    requires
        all_closed(v, Seq::<(usize, Entry)>::empty(), is_passable),
        forall|k: int| 0 <= k < starts.len() ==> has_node(v, CPos { pos: #[trigger] starts[k], level: false }),
        forall|c: CPos| has_node(v, c) ==> #[trigger] start_or_no_goal(starts, goal, c),
    ensures
        forall|w: Seq<Pos>| !#[trigger] admissible_walk(starts, w, goal, is_passable),
{
    assert forall|w: Seq<Pos>| !#[trigger] admissible_walk(starts, w, goal, is_passable) by {
        if admissible_walk(starts, w, goal, is_passable) {
            lemma_walk_visited(starts, goal, is_passable, v, w, w.len() - 1);
            let c = CPos { pos: w.last(), level: false };
            assert(start_or_no_goal(starts, goal, c));
            assert(surely_goal(goal, w.last()));
        }
    }
}

/// Every visited first-level node other than `z` has all its neighbours dealt with.
spec fn closed_except<P: Fn(Option<Direction>, Pos) -> bool>(v: Seq<Entry>, h: Seq<(usize, Entry)>, is_passable: P, z: CPos) -> bool {
    forall|c: CPos, d: Direction| has_node(v, c) && !c.level && c != z ==> #[trigger] closed_at(v, h, is_passable, c, d)
}

/// Every visited first-level node has all its neighbours dealt with, but for the one that
/// item entry `x` enters.
spec fn closed_but<P: Fn(Option<Direction>, Pos) -> bool>(v: Seq<Entry>, h: Seq<(usize, Entry)>, is_passable: P, x: Entry) -> bool {
    forall|c: CPos, d: Direction|
        has_node(v, c) && !c.level ==> #[trigger] closed_at(v, h, is_passable, c, d) || (step_in_range(c.pos, d)
            && enters(x, neighbor_of(c, d), d))
}

/// Storing a start keeps every other visited node's neighbours dealt with.
proof fn lemma_closed_start<P: Fn(Option<Direction>, Pos) -> bool>(v0: Seq<Entry>, v1: Seq<Entry>, h: Seq<(usize, Entry)>, is_passable: P, e: Entry)
    requires
        all_closed(v0, h, is_passable),
        forall|q: CPos| has_node(v0, q) ==> #[trigger] has_node(v1, q),
        drawn_from(v1, v0.push(e)),
    ensures
        closed_except(v1, h, is_passable, e.pos),
{
    assert forall|c: CPos, d: Direction| has_node(v1, c) && !c.level && c != e.pos implies #[trigger] closed_at(v1, h, is_passable, c, d) by {
        lemma_visited_after_insert(v0, v1, e, c);
        assert(closed_at(v0, h, is_passable, c, d));
        if has_node(v0, neighbor_of(c, d)) {
            assert(has_node(v1, neighbor_of(c, d)));
        }
    }
}

/// After a pop, every visited node's neighbours are dealt with, but the popped node.
proof fn lemma_closed_pop<P: Fn(Option<Direction>, Pos) -> bool>(
    v: Seq<Entry>,
    h0: Seq<(usize, Entry)>,
    h1: Seq<(usize, Entry)>,
    is_passable: P,
    x: (usize, Entry),
)
    requires
        all_closed(v, h0, is_passable),
        h0.contains(x),
        h1.to_multiset() == h0.to_multiset().remove(x),
    ensures
        closed_but(v, h1, is_passable, x.1),
{
    broadcast use vstd::seq_lib::to_multiset_contains, vstd::multiset::group_multiset_axioms;

    assert forall|c: CPos, d: Direction| has_node(v, c) && !c.level implies #[trigger] closed_at(v, h1, is_passable, c, d) || (
    step_in_range(c.pos, d) && enters(x.1, neighbor_of(c, d), d)) by {
        assert(closed_at(v, h0, is_passable, c, d));
        let n = neighbor_of(c, d);
        if heap_has(h0, n, d) && !enters(x.1, n, d) {
            let k = choose|k: int| 0 <= k < h0.len() && (#[trigger] h0[k]).1.pos == n && h0[k].1.from is Some && h0[k].1.from->Some_0.0 == d;
            let y = h0[k];
            assert(h0.contains(y));
            assert(h0.to_multiset().count(y) > 0);
            assert(y != x);
            assert(h1.to_multiset().count(y) > 0);
            assert(h1.contains(y));
            let i = choose|i: int| 0 <= i < h1.len() && h1[i] == y;
            assert(h1[i].1.pos == n);
        }
    }
}

/// Storing the popped node `x` deals with the neighbour it left out; only `x` itself is left.
proof fn lemma_closed_after_visit<P: Fn(Option<Direction>, Pos) -> bool>(
    v0: Seq<Entry>,
    v1: Seq<Entry>,
    h: Seq<(usize, Entry)>,
    is_passable: P,
    x: (usize, Entry),
)
    requires
        closed_but(v0, h, is_passable, x.1),
        forall|q: CPos| has_node(v0, q) ==> #[trigger] has_node(v1, q),
        drawn_from(v1, v0.push(x.1)),
        has_node(v1, x.1.pos),
    ensures
        closed_except(v1, h, is_passable, x.1.pos),
{
    assert forall|c: CPos, d: Direction| has_node(v1, c) && !c.level && c != x.1.pos implies #[trigger] closed_at(v1, h, is_passable, c, d) by {
        lemma_visited_after_insert(v0, v1, x.1, c);
        assert(closed_at(v0, h, is_passable, c, d) || (step_in_range(c.pos, d) && enters(x.1, neighbor_of(c, d), d)));
        if has_node(v0, neighbor_of(c, d)) {
            assert(has_node(v1, neighbor_of(c, d)));
        }
    }
}

/// Expanding `pos` with first-level expansions deals with its neighbours.
proof fn lemma_expanded_closed<P: Fn(Option<Direction>, Pos) -> bool, E: Fn(Direction, CPos, Option<Direction>) -> LevelTarget>(
    starts: Seq<Pos>,
    is_passable: P,
    should_expand: E,
    v: Seq<Entry>,
    h0: Seq<(usize, Entry)>,
    h1: Seq<(usize, Entry)>,
    pos: CPos,
    dist: usize,
    from: Option<Direction>,
)
    requires
        levels_one(should_expand),
        closed_except(v, h0, is_passable, pos),
        !pos.level,
        forall|y: (usize, Entry)| h0.contains(y) ==> #[trigger] h1.contains(y),
        forall|d: Direction| #[trigger] neighbor_handled(h1, v, pos, dist, from, should_expand, d),
    ensures
        all_closed(v, h1, is_passable),
{
    assert forall|c: CPos, d: Direction| has_node(v, c) && !c.level implies #[trigger] closed_at(v, h1, is_passable, c, d) by {
        let n = neighbor_of(c, d);
        if c != pos {
            assert(closed_at(v, h0, is_passable, c, d));
            if heap_has(h0, n, d) {
                let k = choose|k: int| 0 <= k < h0.len() && (#[trigger] h0[k]).1.pos == n && h0[k].1.from is Some && h0[k].1.from->Some_0.0 == d;
                assert(h0.contains(h0[k]));
                assert(h1.contains(h0[k]));
                let i = choose|i: int| 0 <= i < h1.len() && h1[i] == h0[k];
                assert(h1[i].1.pos == n);
            }
        } else {
            assert(neighbor_handled(h1, v, pos, dist, from, should_expand, d));
            let lt = choose|lt: LevelTarget|
                #[trigger] call_ensures(should_expand, (d, pos, from), lt) && {
                    let q = CPos { pos: stepped(pos.pos, d), level: lt is Two };
                    ||| lt is Blocked
                    ||| !step_in_range(pos.pos, d)
                    ||| visited_lookup(v, q) matches Some(w) && w.dist <= dist
                    ||| h1.contains(((dist + 1) as usize, Entry { pos: q, dist: (dist + 1) as usize, from: Some((d, pos)) }))
                };
            assert(lt == LevelTarget::One);
            let q = CPos { pos: stepped(pos.pos, d), level: lt is Two };
            assert(q == n);
            let item = ((dist + 1) as usize, Entry { pos: q, dist: (dist + 1) as usize, from: Some((d, pos)) });
            if h1.contains(item) {
                let i = choose|i: int| 0 <= i < h1.len() && h1[i] == item;
                assert(h1[i].1.pos == n && h1[i].1.from is Some && h1[i].1.from->Some_0.0 == d);
            }
        }
    }
}

/// A walk witness stays one as more nodes are visited.
proof fn lemma_walk_grow<P: Fn(Option<Direction>, Pos) -> bool>(starts: Seq<Pos>, is_passable: P, v0: Seq<Entry>, v1: Seq<Entry>, p: Pos, n: usize)
    requires
        walk_witness(starts, is_passable, v0, p, n),
        forall|q: CPos| has_node(v0, q) ==> #[trigger] has_node(v1, q),
    ensures
        walk_witness(starts, is_passable, v1, p, n),
{
    let w = choose|w: Seq<Pos>| #[trigger] walk_fits(starts, is_passable, v0, p, n, w);
    assert forall|i: int| 0 <= i < w.len() - 1 implies has_node(v1, CPos { pos: #[trigger] w[i], level: false }) by {
        assert(has_node(v0, CPos { pos: w[i], level: false }));
    }
    assert(walk_fits(starts, is_passable, v1, p, n, w));
}

proof fn lemma_witness_grow<P: Fn(Option<Direction>, Pos) -> bool>(starts: Seq<Pos>, is_passable: P, v0: Seq<Entry>, v1: Seq<Entry>, h: Seq<(usize, Entry)>)
    requires
        items_witnessed(starts, is_passable, v0, h),
        forall|q: CPos| has_node(v0, q) ==> #[trigger] has_node(v1, q),
    ensures
        items_witnessed(starts, is_passable, v1, h),
{
    assert forall|k: int| 0 <= k < h.len() implies !(#[trigger] h[k]).1.pos.level && walk_witness(starts, is_passable, v1, h[k].1.pos.pos, h[k].0) by {
        lemma_walk_grow(starts, is_passable, v0, v1, h[k].1.pos.pos, h[k].0);
    }
}

proof fn lemma_witness_sub<P: Fn(Option<Direction>, Pos) -> bool>(starts: Seq<Pos>, is_passable: P, v: Seq<Entry>, h0: Seq<(usize, Entry)>, h1: Seq<(usize, Entry)>)
    requires
        items_witnessed(starts, is_passable, v, h0),
        drawn_from(h1, h0),
    ensures
        items_witnessed(starts, is_passable, v, h1),
{
    assert forall|k: int| 0 <= k < h1.len() implies !(#[trigger] h1[k]).1.pos.level && walk_witness(starts, is_passable, v, h1[k].1.pos.pos, h1[k].0) by {
        assert(h0.contains(h1[k]));
        let i = choose|i: int| 0 <= i < h0.len() && h0[i] == h1[k];
        assert(!h0[i].1.pos.level && walk_witness(starts, is_passable, v, h0[i].1.pos.pos, h0[i].0));
    }
}

/// The items a start brings in are witnessed by the two-tile walk from it.
proof fn lemma_start_items<P: Fn(Option<Direction>, Pos) -> bool, E: Fn(Direction, CPos, Option<Direction>) -> LevelTarget>(
    starts: Seq<Pos>,
    is_passable: P,
    should_expand: E,
    v: Seq<Entry>,
    h0: Seq<(usize, Entry)>,
    h1: Seq<(usize, Entry)>,
    s: CPos,
    si: int,
)
    requires
        levels_one(should_expand),
        items_witnessed(starts, is_passable, v, h0),
        0 <= si < starts.len(),
        s == (CPos { pos: starts[si], level: false }),
        has_node(v, s),
        forall|i: int|
            0 <= i < h1.len() ==> h0.contains(#[trigger] h1[i]) || new_item_ok(v, s, 0, None, should_expand, h1[i]),
    ensures
        items_witnessed(starts, is_passable, v, h1),
{
    assert forall|k: int| 0 <= k < h1.len() implies !(#[trigger] h1[k]).1.pos.level && walk_witness(starts, is_passable, v, h1[k].1.pos.pos, h1[k].0) by {
        let y = h1[k];
        if h0.contains(y) {
            let i = choose|i: int| 0 <= i < h0.len() && h0[i] == y;
            assert(!h0[i].1.pos.level && walk_witness(starts, is_passable, v, h0[i].1.pos.pos, h0[i].0));
        } else {
            assert(new_item_ok(v, s, 0, None, should_expand, y));
            let (d, lt) = choose|d: Direction, lt: LevelTarget|
                #[trigger] call_ensures(should_expand, (d, s, None::<Direction>), lt) && {
                    &&& !(lt is Blocked)
                    &&& y.1.pos == CPos { pos: stepped(s.pos, d), level: lt is Two }
                    &&& y.1.from == Some((d, s))
                    &&& step_to(s.pos, d, y.1.pos.pos)
                    &&& !(visited_lookup(v, y.1.pos) matches Some(z) && z.dist <= 0)
                };
            assert(lt == LevelTarget::One);
            let w = seq![s.pos, y.1.pos.pos];
            assert(starts.contains(w[0]));
            assert(walk_step(w, 0));
            assert(w[0] != w[1]) by {
                if w[0] == w[1] {
                    assert(step_to(s.pos, d, s.pos));
                }
            }
            assert(w.no_duplicates());
            assert(has_node(v, CPos { pos: w[0], level: false }));
            assert(walk_fits(starts, is_passable, v, y.1.pos.pos, y.0, w));
        }
    }
}

/// The items an expansion of the popped `x` brings in are witnessed by `x`'s walk and one
/// more step; the step leads to no tile of the walk, as all of those are visited no farther.
proof fn lemma_expanded_items<P: Fn(Option<Direction>, Pos) -> bool, E: Fn(Direction, CPos, Option<Direction>) -> LevelTarget>(
    starts: Seq<Pos>,
    is_passable: P,
    should_expand: E,
    v: Seq<Entry>,
    h0: Seq<(usize, Entry)>,
    h1: Seq<(usize, Entry)>,
    x: (usize, Entry),
    from: Option<Direction>,
    cur: usize,
)
    requires
        levels_one(should_expand),
        items_witnessed(starts, is_passable, v, h0),
        walk_witness(starts, is_passable, v, x.1.pos.pos, x.0),
        !x.1.pos.level,
        x.0 == x.1.dist,
        x.0 == cur,
        x.0 < usize::MAX,
        has_node(v, x.1.pos),
        call_ensures(is_passable, (from, x.1.pos.pos), true),
        forall|k: int| 0 <= k < v.len() ==> (#[trigger] v[k]).dist <= cur,
        forall|i: int|
            0 <= i < h1.len() ==> h0.contains(#[trigger] h1[i]) || new_item_ok(v, x.1.pos, x.1.dist, from, should_expand, h1[i]),
    ensures
        items_witnessed(starts, is_passable, v, h1),
{
    let w = choose|w: Seq<Pos>| #[trigger] walk_fits(starts, is_passable, v, x.1.pos.pos, x.0, w);
    assert(walk_fits(starts, is_passable, v, x.1.pos.pos, x.0, w));
    assert forall|i: int| 0 <= i < w.len() implies has_node(v, CPos { pos: #[trigger] w[i], level: false }) by {
        if i == w.len() - 1 {
            assert(CPos { pos: w[i], level: false } == x.1.pos);
        }
    }
    assert forall|k: int| 0 <= k < h1.len() implies !(#[trigger] h1[k]).1.pos.level && walk_witness(starts, is_passable, v, h1[k].1.pos.pos, h1[k].0) by {
        let y = h1[k];
        if h0.contains(y) {
            let i = choose|i: int| 0 <= i < h0.len() && h0[i] == y;
            assert(!h0[i].1.pos.level && walk_witness(starts, is_passable, v, h0[i].1.pos.pos, h0[i].0));
        } else {
            assert(new_item_ok(v, x.1.pos, x.1.dist, from, should_expand, y));
            let (d, lt) = choose|d: Direction, lt: LevelTarget|
                #[trigger] call_ensures(should_expand, (d, x.1.pos, from), lt) && {
                    &&& !(lt is Blocked)
                    &&& y.1.pos == CPos { pos: stepped(x.1.pos.pos, d), level: lt is Two }
                    &&& y.1.from == Some((d, x.1.pos))
                    &&& step_to(x.1.pos.pos, d, y.1.pos.pos)
                    &&& !(visited_lookup(v, y.1.pos) matches Some(z) && z.dist <= x.1.dist)
                };
            assert(lt == LevelTarget::One);
            let w2 = w.push(y.1.pos.pos);
            assert forall|i: int| 0 <= i < w.len() implies w[i] != y.1.pos.pos by {
                if w[i] == y.1.pos.pos {
                    assert(has_node(v, CPos { pos: w[i], level: false }));
                    assert(CPos { pos: w[i], level: false } == y.1.pos);
                    lemma_visited_lookup_in(v, y.1.pos);
                    let z = visited_lookup(v, y.1.pos)->Some_0;
                    let j = choose|j: int| 0 <= j < v.len() && v[j] == z;
                    assert(v[j].dist <= cur);
                }
            }
            assert(w2.no_duplicates()) by {
                assert forall|a: int, b: int| 0 <= a < w2.len() && 0 <= b < w2.len() && a != b implies w2[a] != w2[b] by {
                    if a < w.len() && b < w.len() {
                        assert(w2[a] == w[a] && w2[b] == w[b]);
                    } else if a < w.len() {
                        assert(w2[a] == w[a]);
                    } else if b < w.len() {
                        assert(w2[b] == w[b]);
                    }
                }
            }
            assert forall|i: int| 0 <= i < w2.len() - 1 implies #[trigger] walk_step(w2, i) by {
                if i < w.len() - 1 {
                    assert(walk_step(w, i));
                    assert(w2[i] == w[i] && w2[i + 1] == w[i + 1]);
                } else {
                    assert(w2[i] == x.1.pos.pos);
                    assert(step_to(w2[i], d, w2[i + 1]));
                }
            }
            assert forall|i: int| 0 <= i < w2.len() - 1 implies has_node(v, CPos { pos: #[trigger] w2[i], level: false }) by {
                assert(w2[i] == w[i]);
            }
            assert forall|i: int| 1 <= i < w2.len() - 1 implies may_pass(is_passable, #[trigger] w2[i]) by {
                assert(w2[i] == w[i]);
                if i == w.len() - 1 {
                    assert(call_ensures(is_passable, (from, w[i]), true));
                } else {
                    assert(may_pass(is_passable, w[i]));
                }
            }
            assert(w2[0] == w[0]);
            assert(walk_fits(starts, is_passable, v, y.1.pos.pos, y.0, w2));
        }
    }
}

/// Popping `x` takes its weight off the potential.
/// How many steps apart `p` and `s` are on the grid.
spec fn manhattan(p: Pos, s: Pos) -> int {
    (if p[0] >= s[0] { p[0] - s[0] } else { s[0] - p[0] }) + (if p[1] >= s[1] { p[1] - s[1] } else { s[1] - p[1] })
}

/// A distance `d` to tile `p` has the parity of the grid steps from `s` to `p`.
spec fn parity_ok(s: Pos, p: Pos, d: int) -> bool {
    (d + manhattan(p, s)) % 2 == 0
}

/// The distance stored for a visited node.
spec fn dist_of(v: Seq<Entry>, c: CPos) -> int {
    visited_lookup(v, c)->Some_0.dist as int
}

/// An entry's link leads to a visited node stored one closer; an entry without a link is at
/// distance 0.
spec fn link_dist_ok(v: Seq<Entry>, e: Entry) -> bool {
    match e.from {
        Some((_, q)) => has_node(v, q) && dist_of(v, q) + 1 == e.dist,
        None => e.dist == 0,
    }
}

/// The heap holds an item for node `n`, entered in direction `d`, no farther than `b`.
spec fn heap_within(h: Seq<(usize, Entry)>, n: CPos, d: Direction, b: int) -> bool {
    exists|k: int| 0 <= k < h.len() && #[trigger] enters(h[k].1, n, d) && h[k].0 <= b
}

/// The neighbour of `c` in direction `d` is dealt with, within one step of `c`'s distance.
spec fn closed_dist<P: Fn(Option<Direction>, Pos) -> bool>(v: Seq<Entry>, h: Seq<(usize, Entry)>, is_passable: P, c: CPos, d: Direction) -> bool {
    ||| !step_in_range(c.pos, d)
    ||| has_node(v, neighbor_of(c, d)) && dist_of(v, neighbor_of(c, d)) <= dist_of(v, c) + 1
    ||| heap_within(h, neighbor_of(c, d), d, dist_of(v, c) + 1)
    ||| call_ensures(is_passable, (Some(d), stepped(c.pos, d)), false)
}

/// What a search from the single start `s0` on the first level keeps, once past `cur`: the
/// distances have the parity of the grid steps from `s0`, the heap holds nothing farther than
/// `cur + 1`, nor more than one farther than a node's stored distance, every link leads one
/// closer, the start is stored at distance 0, and every visited node but `z` has its
/// neighbours dealt with within one step.
spec fn bfs_inv_except<P: Fn(Option<Direction>, Pos) -> bool>(
    s0: Pos,
    v: Seq<Entry>,
    h: Seq<(usize, Entry)>,
    cur: int,
    is_passable: P,
    z: Option<CPos>,
) -> bool {
    &&& forall|k: int| 0 <= k < v.len() ==> parity_ok(s0, (#[trigger] v[k]).pos.pos, v[k].dist as int)
    &&& forall|k: int| 0 <= k < h.len() ==> parity_ok(s0, (#[trigger] h[k]).1.pos.pos, h[k].0 as int)
    &&& forall|k: int| 0 <= k < h.len() ==> (#[trigger] h[k]).0 <= cur + 1
    &&& forall|k: int| 0 <= k < h.len() ==> has_node(v, (#[trigger] h[k]).1.pos) ==> h[k].0 <= dist_of(v, h[k].1.pos) + 1
    &&& forall|k: int| 0 <= k < v.len() ==> link_dist_ok(v, #[trigger] v[k])
    &&& forall|k: int| 0 <= k < h.len() ==> link_dist_ok(v, (#[trigger] h[k]).1)
    &&& has_node(v, CPos { pos: s0, level: false })
    &&& dist_of(v, CPos { pos: s0, level: false }) == 0
    &&& forall|c: CPos, d: Direction|
        has_node(v, c) && !c.level && z != Some(c) ==> #[trigger] closed_dist(v, h, is_passable, c, d)
}

spec fn bfs_inv<P: Fn(Option<Direction>, Pos) -> bool>(s0: Pos, v: Seq<Entry>, h: Seq<(usize, Entry)>, cur: int, is_passable: P) -> bool {
    bfs_inv_except(s0, v, h, cur, is_passable, None)
}

/// A step flips the parity of the grid steps from `s`.
proof fn lemma_step_parity(s: Pos, b: Pos, dd: Direction, a: Pos, d: int)
    requires
        step_to(b, dd, a),
        parity_ok(s, b, d),
    ensures
        parity_ok(s, a, d + 1),
{
    let mb = manhattan(b, s);
    let ma = manhattan(a, s);
    assert(ma == mb + 1 || ma == mb - 1);
}

/// Facts of a stored lookup: the entry is one of the list, for that node.
proof fn lemma_lookup_entry(v: Seq<Entry>, c: CPos)
    requires
        has_node(v, c),
    ensures
        exists|k: int| 0 <= k < v.len() && v[k] == visited_lookup(v, c)->Some_0,
        visited_lookup(v, c)->Some_0.pos == c,
{
    lemma_visited_lookup_in(v, c);
}

/// Expanding node `z` at `dist` deals with all its neighbours: what the search keeps from a
/// single start holds again, for `z` too.
proof fn lemma_bfs_expand<P: Fn(Option<Direction>, Pos) -> bool, E: Fn(Direction, CPos, Option<Direction>) -> LevelTarget>(
    s0: Pos,
    v: Seq<Entry>,
    h0: Seq<(usize, Entry)>,
    h1: Seq<(usize, Entry)>,
    z: CPos,
    dist: usize,
    from: Option<Direction>,
    should_expand: E,
    is_passable: P,
)
    requires
        bfs_inv_except(s0, v, h0, dist as int, is_passable, Some(z)),
        has_node(v, z),
        dist_of(v, z) == dist,
        levels_one(should_expand),
        forall|k: int| 0 <= k < v.len() ==> (#[trigger] v[k]).dist <= dist,
        forall|x: (usize, Entry)| h0.contains(x) ==> #[trigger] h1.contains(x),
        forall|i: int|
            0 <= i < h1.len() ==> h0.contains(#[trigger] h1[i]) || new_item_ok(v, z, dist, from, should_expand, h1[i]),
        forall|d: Direction| #[trigger] neighbor_handled(h1, v, z, dist, from, should_expand, d),
    ensures
        bfs_inv(s0, v, h1, dist as int, is_passable),
{
    lemma_new_items_unvisited(v, h0, h1, z, dist, from, should_expand);
    lemma_lookup_entry(v, z);
    let kz = choose|k: int| 0 <= k < v.len() && v[k] == visited_lookup(v, z)->Some_0;
    assert(parity_ok(s0, v[kz].pos.pos, v[kz].dist as int));
    assert forall|i: int| 0 <= i < h1.len() implies {
        &&& parity_ok(s0, (#[trigger] h1[i]).1.pos.pos, h1[i].0 as int)
        &&& h1[i].0 <= dist + 1
        &&& (has_node(v, h1[i].1.pos) ==> h1[i].0 <= dist_of(v, h1[i].1.pos) + 1)
        &&& link_dist_ok(v, h1[i].1)
    } by {
        let y = h1[i];
        if h0.contains(y) {
            let j = choose|j: int| 0 <= j < h0.len() && h0[j] == y;
            assert(parity_ok(s0, h0[j].1.pos.pos, h0[j].0 as int));
            assert(h0[j].0 <= dist + 1);
            assert(link_dist_ok(v, h0[j].1));
            assert(has_node(v, h0[j].1.pos) ==> h0[j].0 <= dist_of(v, h0[j].1.pos) + 1);
        } else {
            assert(new_item_ok(v, z, dist, from, should_expand, y));
            let (d, lt) = choose|d: Direction, lt: LevelTarget|
                #[trigger] call_ensures(should_expand, (d, z, from), lt) && {
                    &&& !(lt is Blocked)
                    &&& y.1.pos == CPos { pos: stepped(z.pos, d), level: lt is Two }
                    &&& y.1.from == Some((d, z))
                    &&& step_to(z.pos, d, y.1.pos.pos)
                    &&& !(visited_lookup(v, y.1.pos) matches Some(vv) && vv.dist <= dist)
                };
            lemma_step_parity(s0, z.pos, d, y.1.pos.pos, dist as int);
        }
    }
    assert forall|c: CPos, d: Direction| has_node(v, c) && !c.level && None::<CPos> != Some(c) implies #[trigger] closed_dist(
        v,
        h1,
        is_passable,
        c,
        d,
    ) by {
        let n = neighbor_of(c, d);
        if c == z {
            assert(neighbor_handled(h1, v, z, dist, from, should_expand, d));
            let lt = choose|lt: LevelTarget|
                #[trigger] call_ensures(should_expand, (d, z, from), lt) && {
                    let q = CPos { pos: stepped(z.pos, d), level: lt is Two };
                    ||| lt is Blocked
                    ||| !step_in_range(z.pos, d)
                    ||| visited_lookup(v, q) matches Some(vv) && vv.dist <= dist
                    ||| h1.contains(((dist + 1) as usize, Entry { pos: q, dist: (dist + 1) as usize, from: Some((d, z)) }))
                };
            assert(lt == LevelTarget::One);
            let q = CPos { pos: stepped(z.pos, d), level: lt is Two };
            assert(q == n);
            if h1.contains(((dist + 1) as usize, Entry { pos: q, dist: (dist + 1) as usize, from: Some((d, z)) })) {
                let k = choose|k: int|
                    0 <= k < h1.len() && h1[k] == ((dist + 1) as usize, Entry { pos: q, dist: (dist + 1) as usize, from: Some((d, z)) });
                assert(enters(h1[k].1, n, d) && h1[k].0 <= dist_of(v, c) + 1);
            }
        } else {
            assert(closed_dist(v, h0, is_passable, c, d));
            if heap_within(h0, n, d, dist_of(v, c) + 1) {
                let k = choose|k: int| 0 <= k < h0.len() && #[trigger] enters(h0[k].1, n, d) && h0[k].0 <= dist_of(v, c) + 1;
                assert(h0.contains(h0[k]));
                assert(h1.contains(h0[k]));
                let j = choose|j: int| 0 <= j < h1.len() && h1[j] == h0[k];
                assert(enters(h1[j].1, n, d));
            }
        }
    }
}

/// Storing the popped item `x` keeps what the search from a single start keeps, but for the
/// neighbours of `x`'s node; a node visited again keeps its distance.
proof fn lemma_bfs_visit<P: Fn(Option<Direction>, Pos) -> bool>(
    s0: Pos,
    v0: Seq<Entry>,
    v1: Seq<Entry>,
    h0: Seq<(usize, Entry)>,
    h1: Seq<(usize, Entry)>,
    x: (usize, Entry),
    cur: int,
    is_passable: P,
)
    requires
        bfs_inv(s0, v0, h0, cur, is_passable),
        h0.contains(x),
        h1.to_multiset() == h0.to_multiset().remove(x),
        forall|k: int| 0 <= k < h0.len() ==> (#[trigger] h0[k]).0 >= x.0,
        x.0 >= cur,
        x.0 == x.1.dist,
        forall|k: int| 0 <= k < v0.len() ==> (#[trigger] v0[k]).dist <= cur,
        drawn_from(v1, v0.push(x.1)),
        forall|q: CPos| has_node(v0, q) ==> #[trigger] has_node(v1, q),
        visited_lookup(v1, x.1.pos) == Some(x.1),
        forall|q: CPos| q != x.1.pos ==> #[trigger] visited_lookup(v1, q) == visited_lookup(v0, q),
    ensures
        bfs_inv_except(s0, v1, h1, x.0 as int, is_passable, Some(x.1.pos)),
        dist_of(v1, x.1.pos) == x.0,
{
    broadcast use vstd::seq_lib::to_multiset_contains, vstd::multiset::group_multiset_axioms;

    let kx = choose|k: int| 0 <= k < h0.len() && h0[k] == x;
    assert(parity_ok(s0, h0[kx].1.pos.pos, h0[kx].0 as int));
    assert(link_dist_ok(v0, h0[kx].1));
    if has_node(v0, x.1.pos) {
        lemma_lookup_entry(v0, x.1.pos);
        let k = choose|k: int| 0 <= k < v0.len() && v0[k] == visited_lookup(v0, x.1.pos)->Some_0;
        assert(parity_ok(s0, v0[k].pos.pos, v0[k].dist as int));
        assert(v0[k].dist <= cur);
        assert(h0[kx].0 <= dist_of(v0, x.1.pos) + 1);
        assert(dist_of(v0, x.1.pos) == x.0);
    }
    // distances of nodes visited before do not change
    assert forall|c: CPos| has_node(v0, c) implies #[trigger] dist_of(v1, c) == dist_of(v0, c) by {
        if c != x.1.pos {
            assert(visited_lookup(v1, c) == visited_lookup(v0, c));
        }
    }
    assert forall|k: int| 0 <= k < v1.len() implies parity_ok(s0, (#[trigger] v1[k]).pos.pos, v1[k].dist as int)
        && link_dist_ok(v1, v1[k]) by {
        assert(v0.push(x.1).contains(v1[k]));
        let j = choose|j: int| 0 <= j < v0.push(x.1).len() && v0.push(x.1)[j] == v1[k];
        if j < v0.len() {
            assert(v0[j] == v1[k]);
            assert(parity_ok(s0, v0[j].pos.pos, v0[j].dist as int));
            assert(link_dist_ok(v0, v0[j]));
            if let Some((_, q)) = v0[j].from {
                assert(dist_of(v1, q) == dist_of(v0, q));
            }
        } else {
            if let Some((_, q)) = x.1.from {
                assert(dist_of(v1, q) == dist_of(v0, q));
            }
        }
    }
    assert forall|k: int| 0 <= k < h1.len() implies {
        &&& parity_ok(s0, (#[trigger] h1[k]).1.pos.pos, h1[k].0 as int)
        &&& h1[k].0 <= x.0 + 1
        &&& (has_node(v1, h1[k].1.pos) ==> h1[k].0 <= dist_of(v1, h1[k].1.pos) + 1)
        &&& link_dist_ok(v1, h1[k].1)
    } by {
        let y = h1[k];
        assert(h1.contains(y));
        assert(h1.to_multiset().count(y) > 0);
        assert(h0.to_multiset().count(y) > 0);
        let j = choose|j: int| 0 <= j < h0.len() && h0[j] == y;
        assert(parity_ok(s0, h0[j].1.pos.pos, h0[j].0 as int));
        assert(h0[j].0 <= cur + 1);
        assert(link_dist_ok(v0, h0[j].1));
        if let Some((_, q)) = y.1.from {
            assert(dist_of(v1, q) == dist_of(v0, q));
        }
        if has_node(v1, y.1.pos) {
            lemma_visited_after_insert(v0, v1, x.1, y.1.pos);
            if has_node(v0, y.1.pos) {
                assert(has_node(v0, h0[j].1.pos) ==> h0[j].0 <= dist_of(v0, h0[j].1.pos) + 1);
            }
        }
    }
    assert(dist_of(v1, CPos { pos: s0, level: false }) == 0);
    assert forall|c: CPos, d: Direction| has_node(v1, c) && !c.level && Some(x.1.pos) != Some(c) implies #[trigger] closed_dist(
        v1,
        h1,
        is_passable,
        c,
        d,
    ) by {
        lemma_visited_after_insert(v0, v1, x.1, c);
        assert(closed_dist(v0, h0, is_passable, c, d));
        let n = neighbor_of(c, d);
        if has_node(v0, n) {
            assert(dist_of(v1, n) == dist_of(v0, n));
        }
        if heap_within(h0, n, d, dist_of(v0, c) + 1) {
            let k = choose|k: int| 0 <= k < h0.len() && #[trigger] enters(h0[k].1, n, d) && h0[k].0 <= dist_of(v0, c) + 1;
            let y = h0[k];
            if y == x {
                assert(has_node(v1, n));
            } else {
                assert(h0.to_multiset().count(y) > 0);
                assert(h1.to_multiset().count(y) > 0);
                assert(h1.contains(y));
                let i = choose|i: int| 0 <= i < h1.len() && h1[i] == y;
                assert(enters(h1[i].1, n, d));
            }
        }
    }
}

/// Dropping the popped item `x` whose tile failed the passability test keeps what the search
/// from a single start keeps.
proof fn lemma_bfs_drop<P: Fn(Option<Direction>, Pos) -> bool>(
    s0: Pos,
    v: Seq<Entry>,
    h0: Seq<(usize, Entry)>,
    h1: Seq<(usize, Entry)>,
    x: (usize, Entry),
    cur: int,
    is_passable: P,
    f: Option<Direction>,
)
    requires
        bfs_inv(s0, v, h0, cur, is_passable),
        h0.contains(x),
        h1.to_multiset() == h0.to_multiset().remove(x),
        call_ensures(is_passable, (f, x.1.pos.pos), false),
        f == (match x.1.from {
            Some((dd, _)) => Some(dd),
            None => None,
        }),
    ensures
        bfs_inv(s0, v, h1, cur, is_passable),
{
    broadcast use vstd::seq_lib::to_multiset_contains, vstd::multiset::group_multiset_axioms;

    assert forall|k: int| 0 <= k < h1.len() implies {
        &&& parity_ok(s0, (#[trigger] h1[k]).1.pos.pos, h1[k].0 as int)
        &&& h1[k].0 <= cur + 1
        &&& (has_node(v, h1[k].1.pos) ==> h1[k].0 <= dist_of(v, h1[k].1.pos) + 1)
        &&& link_dist_ok(v, h1[k].1)
    } by {
        let y = h1[k];
        assert(h1.contains(y));
        assert(h1.to_multiset().count(y) > 0);
        assert(h0.to_multiset().count(y) > 0);
        let j = choose|j: int| 0 <= j < h0.len() && h0[j] == y;
        assert(parity_ok(s0, h0[j].1.pos.pos, h0[j].0 as int));
        assert(h0[j].0 <= cur + 1);
        assert(link_dist_ok(v, h0[j].1));
        assert(has_node(v, h0[j].1.pos) ==> h0[j].0 <= dist_of(v, h0[j].1.pos) + 1);
    }
    assert forall|c: CPos, d: Direction| has_node(v, c) && !c.level && None::<CPos> != Some(c) implies #[trigger] closed_dist(
        v,
        h1,
        is_passable,
        c,
        d,
    ) by {
        assert(closed_dist(v, h0, is_passable, c, d));
        let n = neighbor_of(c, d);
        if heap_within(h0, n, d, dist_of(v, c) + 1) {
            let k = choose|k: int| 0 <= k < h0.len() && #[trigger] enters(h0[k].1, n, d) && h0[k].0 <= dist_of(v, c) + 1;
            let y = h0[k];
            if y == x {
                assert(f == Some(d));
                assert(call_ensures(is_passable, (Some(d), stepped(c.pos, d)), false));
            } else {
                assert(h0.to_multiset().count(y) > 0);
                assert(h1.to_multiset().count(y) > 0);
                assert(h1.contains(y));
                let i = choose|i: int| 0 <= i < h1.len() && h1[i] == y;
                assert(enters(h1[i].1, n, d));
            }
        }
    }
}

/// The single start, stored and expanded, starts what the search keeps.
proof fn lemma_bfs_start<P: Fn(Option<Direction>, Pos) -> bool, E: Fn(Direction, CPos, Option<Direction>) -> LevelTarget>(
    s0: Pos,
    v: Seq<Entry>,
    h: Seq<(usize, Entry)>,
    should_expand: E,
    is_passable: P,
)
    requires
        drawn_from(v, seq![Entry { pos: CPos { pos: s0, level: false }, dist: 0, from: None }]),
        visited_lookup(v, CPos { pos: s0, level: false }) == Some(Entry { pos: CPos { pos: s0, level: false }, dist: 0, from: None }),
        levels_one(should_expand),
        forall|i: int|
            0 <= i < h.len() ==> Seq::<(usize, Entry)>::empty().contains(#[trigger] h[i]) || new_item_ok(
                v,
                CPos { pos: s0, level: false },
                0,
                None,
                should_expand,
                h[i],
            ),
        forall|d: Direction| #[trigger] neighbor_handled(h, v, CPos { pos: s0, level: false }, 0, None, should_expand, d),
    ensures
        bfs_inv(s0, v, h, 0, is_passable),
{
    let z = CPos { pos: s0, level: false };
    let e0 = Entry { pos: z, dist: 0, from: None };
    let h0 = Seq::<(usize, Entry)>::empty();
    assert forall|k: int| 0 <= k < v.len() implies (#[trigger] v[k]) == e0 by {
        assert(seq![e0].contains(v[k]));
    }
    assert(manhattan(s0, s0) == 0);
    assert forall|c: CPos| has_node(v, c) implies c == z by {
        lemma_lookup_entry(v, c);
    }
    assert(bfs_inv_except(s0, v, h0, 0, is_passable, Some(z)));
    lemma_bfs_expand(s0, v, h0, h, z, 0, None, should_expand, is_passable);
}

/// Every tile of an admissible walk from the single start, up to the distance of the popped
/// item, is visited no farther than its place in the walk.
proof fn lemma_bfs_walk<G: Fn(Pos) -> bool, P: Fn(Option<Direction>, Pos) -> bool>(
    s0: Pos,
    v: Seq<Entry>,
    h: Seq<(usize, Entry)>,
    cur: int,
    bound: int,
    goal: G,
    is_passable: P,
    w: Seq<Pos>,
    i: int,
)
    requires
        bfs_inv(s0, v, h, cur, is_passable),
        forall|k: int| 0 <= k < h.len() ==> (#[trigger] h[k]).0 >= bound,
        admissible_walk(seq![s0], w, goal, is_passable),
        0 <= i < w.len(),
        i < bound,
    ensures
        has_node(v, CPos { pos: w[i], level: false }),
        dist_of(v, CPos { pos: w[i], level: false }) <= i,
    decreases i,
{
    if i == 0 {
        assert(seq![s0].contains(w[0]));
        assert(seq![s0][0] == s0);
    } else {
        lemma_bfs_walk(s0, v, h, cur, bound, goal, is_passable, w, i - 1);
        assert(walk_step(w, i - 1));
        let d = choose|d: Direction| #[trigger] step_to(w[i - 1], d, w[i]);
        lemma_stepped(w[i - 1], d, w[i]);
        let c = CPos { pos: w[i - 1], level: false };
        assert(closed_dist(v, h, is_passable, c, d));
        assert(neighbor_of(c, d) == CPos { pos: w[i], level: false });
        assert(passes_into(is_passable, w, i));
        if call_ensures(is_passable, (Some(d), stepped(c.pos, d)), false) {
            assert(call_ensures(is_passable, (Some(d), w[i]), false));
        }
        if heap_within(h, neighbor_of(c, d), d, dist_of(v, c) + 1) {
            let k = choose|k: int| 0 <= k < h.len() && #[trigger] enters(h[k].1, neighbor_of(c, d), d) && h[k].0 <= dist_of(v, c) + 1;
            assert(h[k].0 >= bound);
        }
    }
}

/// No admissible walk from the single start is shorter than the distance of the popped goal
/// item, plus one.
proof fn lemma_bfs_short<G: Fn(Pos) -> bool, P: Fn(Option<Direction>, Pos) -> bool>(
    s0: Pos,
    v: Seq<Entry>,
    h: Seq<(usize, Entry)>,
    cur: int,
    bound: int,
    goal: G,
    is_passable: P,
    w: Seq<Pos>,
)
    requires
        bfs_inv(s0, v, h, cur, is_passable),
        forall|k: int| 0 <= k < h.len() ==> (#[trigger] h[k]).0 >= bound,
        forall|c: CPos| has_node(v, c) ==> #[trigger] start_or_no_goal(seq![s0], goal, c),
        admissible_walk(seq![s0], w, goal, is_passable),
    ensures
        w.len() >= bound + 1,
{
    if w.len() < bound + 1 {
        let m = w.len() - 1;
        lemma_bfs_walk(s0, v, h, cur, bound, goal, is_passable, w, m);
        let c = CPos { pos: w[m], level: false };
        assert(start_or_no_goal(seq![s0], goal, c));
        assert(w.last() == w[m]);
        assert(surely_goal(goal, w.last()));
    }
}

proof fn lemma_pop_potential(h0: Seq<(usize, Entry)>, h1: Seq<(usize, Entry)>, x: (usize, Entry))
    requires
        h0.contains(x),
        h1.to_multiset() == h0.to_multiset().remove(x),
    ensures
        potential(h0) == potential(h1) + pow5((usize::MAX - x.0) as nat),
{
    broadcast use vstd::seq_lib::to_multiset_build, vstd::seq_lib::to_multiset_contains, vstd::multiset::group_multiset_axioms;

    assert(h0.to_multiset().count(x) > 0);
    assert(h1.push(x).to_multiset() =~= h0.to_multiset());
    lemma_potential_multiset(h0, h1.push(x));
    assert(h1.push(x).drop_last() =~= h1);
}

/// Searches from the starts for a node that satisfies `goal`, expanding in distance order.
///
/// * `is_passable` takes the direction the search came from and the tile.
/// * `should_expand` takes the direction to go, the node and the direction the search came
///   from, and tells whether to expand there and on which level; it lets conveyor crossings
///   be passed on the second level.
///
/// The path comes back goal first and start last. When `should_expand` always expands on the
/// first level, the search finds a path whenever a walk from a start reaches a goal tile that
/// is no start through tiles that pass when entered from the tile before; the one exception is a region
/// so vast that distances, counted in `usize`, run out. Its path then has no tile twice, and
/// from a single start no such walk is shorter. (From several starts a node reached first from
/// one start may later be re-entered from another, and the path followed back can be longer.)
pub fn find_multipath_should_expand<G, P, E>(
    start: &Vec<Pos>,
    goal: G,
    is_passable: P,
    should_expand: E,
) -> (r: Option<Vec<Pos>>) where
    G: Fn(Pos) -> bool,
    P: Fn(Option<Direction>, Pos) -> bool,
    E: Fn(Direction, CPos, Option<Direction>) -> LevelTarget,

    requires
        forall|p: Pos| call_requires(goal, (p,)),
        forall|d: Option<Direction>, p: Pos| call_requires(is_passable, (d, p)),
        forall|d: Direction, c: CPos, f: Option<Direction>| call_requires(should_expand, (d, c, f)),
    ensures
        r matches Some(path) ==> found_path(start@, path@, goal, is_passable),
        levels_one(should_expand) && r is None ==> (forall|w: Seq<Pos>| !#[trigger] admissible_walk(start@, w, goal, is_passable))
            || vast_region(start@, is_passable),
        levels_one(should_expand) && start@.len() == 1 ==> (r matches Some(path) ==> path@[0] != start@[0]),
        levels_one(should_expand) ==> (r matches Some(path) ==> path@.no_duplicates()),
        r is None ==> forall|s: Pos, d: Direction, g: Pos|
            !#[trigger] next_to_goal(start@, s, d, g, goal, is_passable, should_expand),
        levels_one(should_expand) && start@.len() == 1 && r is None ==> forall|w: Seq<Pos>|
            #[trigger] admissible_walk(start@, w, goal, is_passable) ==> w.len() > usize::MAX,
        levels_one(should_expand) && start@.len() == 1 ==> (r matches Some(path) ==> forall|w: Seq<Pos>|
            #[trigger] admissible_walk(start@, w, goal, is_passable) ==> path@.len() <= w.len()),
{
    let mut visited: Vec<Entry> = Vec::new();
    let mut heap: DistHeap<Entry> = DistHeap::new();
    let ghost lo = levels_one(should_expand);
    let ghost sg = lo && start@.len() == 1;
    let ghost mut rank: Map<CPos, nat> = Map::empty();
    let ghost mut counter: nat = 0;
    let mut si: usize = 0;
    while si < start.len()
        invariant
            si <= start@.len(),
            lo == levels_one(should_expand),
            forall|d: Direction, c: CPos, f: Option<Direction>| call_requires(should_expand, (d, c, f)),
            forall|k: int|
                0 <= k < visited@.len() ==> visited_entry_ok(visited@, start@, is_passable, #[trigger] visited@[k]),
            forall|k: int| 0 <= k < heap.elems().len() ==> heap_item_ok(visited@, #[trigger] heap.elems()[k], 1),
            heap.wf(),
            forall|k: int| 0 <= k < si ==> has_node(visited@, CPos { pos: #[trigger] start@[k], level: false }),
            forall|c: CPos| has_node(visited@, c) ==> #[trigger] start_or_no_goal(start@, goal, c),
            forall|k: int| 0 <= k < visited@.len() ==> (#[trigger] visited@[k]).dist == 0,
            lo ==> all_closed(visited@, heap.elems(), is_passable),
            lo ==> items_witnessed(start@, is_passable, visited@, heap.elems()),
            rank_covers(visited@, rank, counter),
            forall|k: int| 0 <= k < visited@.len() ==> links_down(rank, #[trigger] visited@[k]),
            heap_links_down(visited@, heap.elems(), rank),
            si == 0 ==> heap.elems().len() == 0,
            si == 0 ==> visited@.len() == 0,
            forall|k: int| 0 <= k < visited@.len() ==> !(#[trigger] visited@[k]).pos.level && start@.contains(visited@[k].pos.pos),
            forall|j: int, d: Direction, g: Pos|
                0 <= j < si && #[trigger] next_to_goal(start@, start@[j], d, g, goal, is_passable, should_expand)
                    ==> heap_at_one(heap.elems(), g),
            sg == (lo && start@.len() == 1),
            sg && si == 1 ==> bfs_inv(start@[0], visited@, heap.elems(), 0, is_passable),
            lo ==> forall|k: int| 0 <= k < visited@.len() ==> !(#[trigger] visited@[k]).pos.level,
            start@.len() == 1 && si == 1 ==> forall|k: int|
                0 <= k < heap.elems().len() ==> (#[trigger] heap.elems()[k]).1.pos != (CPos { pos: start@[0], level: false }),
        decreases start@.len() - si,
    {
        let s_cpos = CPos { pos: start[si], level: false };
        let ghost vbefore = visited@;
        let e = Entry { pos: s_cpos, dist: 0, from: None };
        visited_insert(&mut visited, e);
        proof {
            assert(start@.contains(start@[si as int]));
            assert forall|k: int| 0 <= k < visited@.len() implies visited_entry_ok(visited@, start@, is_passable, #[trigger] visited@[k]) by {
                assert(vbefore.push(e).contains(visited@[k]));
                let j = choose|j: int| 0 <= j < vbefore.push(e).len() && vbefore.push(e)[j] == visited@[k];
                if j < vbefore.len() {
                    assert(vbefore[j] == visited@[k]);
                    assert(visited_entry_ok(vbefore, start@, is_passable, vbefore[j]));
                }
            }
            assert forall|k: int| 0 <= k < heap.elems().len() implies heap_item_ok(visited@, #[trigger] heap.elems()[k], 1) by {
            }
            assert forall|c: CPos| has_node(visited@, c) implies #[trigger] start_or_no_goal(start@, goal, c) by {
                lemma_visited_after_insert(vbefore, visited@, e, c);
                if has_node(vbefore, c) {
                    assert(start_or_no_goal(start@, goal, c));
                }
            }
            assert forall|k: int| 0 <= k < visited@.len() implies (#[trigger] visited@[k]).dist == 0 && !visited@[k].pos.level && start@.contains(visited@[k].pos.pos) by {
                assert(vbefore.push(e).contains(visited@[k]));
                let j = choose|j: int| 0 <= j < vbefore.push(e).len() && vbefore.push(e)[j] == visited@[k];
                if j < vbefore.len() {
                    assert(vbefore[j] == visited@[k]);
                }
            }
            assert forall|k: int| 0 <= k < heap.elems().len() implies heap_entry_ok(vbefore, (#[trigger] heap.elems()[k]).1) by {
                assert(heap_item_ok(vbefore, heap.elems()[k], 1));
            }
            let rc = lemma_rank_visit(vbefore, visited@, heap.elems(), rank, counter, e);
            rank = rc.0;
            counter = rc.1;
            if lo {
                lemma_closed_start(vbefore, visited@, heap.elems(), is_passable, e);
                lemma_witness_grow(start@, is_passable, vbefore, visited@, heap.elems());
            }
        }
        let ghost hbefore = heap.elems();
        let ghost vmid = visited@;
        insert_neighbors(&mut heap, &visited, s_cpos, 0, None, &should_expand);
        proof {
            assert forall|k: int| 0 <= k < heap.elems().len() implies heap_item_ok(visited@, #[trigger] heap.elems()[k], 1) by {
                let x = heap.elems()[k];
                if hbefore.contains(x) {
                    let j = choose|j: int| 0 <= j < hbefore.len() && hbefore[j] == x;
                    assert(heap_item_ok(visited@, hbefore[j], 1));
                }
            }
            lemma_rank_expand(visited@, hbefore, heap.elems(), rank, s_cpos, 0, None, should_expand);
            assert forall|j: int, d: Direction, g: Pos|
                0 <= j < si + 1 && #[trigger] next_to_goal(start@, start@[j], d, g, goal, is_passable, should_expand)
                    implies heap_at_one(heap.elems(), g) by {
                if j < si {
                    lemma_heap_at_one_grow(hbefore, heap.elems(), g);
                } else {
                    assert(neighbor_handled(heap.elems(), visited@, s_cpos, 0, None, should_expand, d));
                    lemma_next_goal_pushed(start@, visited@, heap.elems(), start@[j], d, g, goal, is_passable, should_expand);
                }
            }
            lemma_new_items_unvisited(visited@, hbefore, heap.elems(), s_cpos, 0, None, should_expand);
            if sg {
                assert(vbefore =~= Seq::<Entry>::empty());
                assert(vbefore.push(e) =~= seq![e]);
                assert(hbefore =~= Seq::<(usize, Entry)>::empty());
                lemma_bfs_start(start@[0], visited@, heap.elems(), should_expand, is_passable);
            }
            if lo {
                lemma_expanded_closed(start@, is_passable, should_expand, visited@, hbefore, heap.elems(), s_cpos, 0, None);
                lemma_start_items(start@, is_passable, should_expand, visited@, hbefore, heap.elems(), s_cpos, si as int);
            }
        }
        si = si + 1;
    }
    proof {
        assert forall|s: Pos, d: Direction, g: Pos| #[trigger] next_to_goal(start@, s, d, g, goal, is_passable, should_expand)
            implies heap_at_one(heap.elems(), g) by {
            let j = choose|j: int| 0 <= j < start@.len() && start@[j] == s;
            assert(next_to_goal(start@, start@[j], d, g, goal, is_passable, should_expand));
        }
    }
    let ghost mut cur: usize = 0;
    loop
        invariant
            forall|p: Pos| call_requires(goal, (p,)),
            forall|d: Option<Direction>, p: Pos| call_requires(is_passable, (d, p)),
            forall|d: Direction, c: CPos, f: Option<Direction>| call_requires(should_expand, (d, c, f)),
            lo == levels_one(should_expand),
            forall|k: int|
                0 <= k < visited@.len() ==> visited_entry_ok(visited@, start@, is_passable, #[trigger] visited@[k]),
            forall|k: int|
                0 <= k < heap.elems().len() ==> heap_item_ok(visited@, #[trigger] heap.elems()[k], usize::MAX as int),
            heap.wf(),
            forall|k: int| 0 <= k < start@.len() ==> has_node(visited@, CPos { pos: #[trigger] start@[k], level: false }),
            forall|c: CPos| has_node(visited@, c) ==> #[trigger] start_or_no_goal(start@, goal, c),
            forall|k: int| 0 <= k < visited@.len() ==> (#[trigger] visited@[k]).dist <= cur,
            forall|k: int| 0 <= k < heap.elems().len() ==> (#[trigger] heap.elems()[k]).0 >= cur,
            lo ==> all_closed(visited@, heap.elems(), is_passable),
            lo ==> items_witnessed(start@, is_passable, visited@, heap.elems()),
            rank_covers(visited@, rank, counter),
            forall|k: int| 0 <= k < visited@.len() ==> links_down(rank, #[trigger] visited@[k]),
            heap_links_down(visited@, heap.elems(), rank),
            start@.len() == 1 ==> forall|k: int|
                0 <= k < heap.elems().len() ==> (#[trigger] heap.elems()[k]).1.pos != (CPos { pos: start@[0], level: false }),
            sg == (lo && start@.len() == 1),
            sg ==> bfs_inv(start@[0], visited@, heap.elems(), cur as int, is_passable),
            lo ==> forall|k: int| 0 <= k < visited@.len() ==> !(#[trigger] visited@[k]).pos.level,
            forall|s: Pos, d: Direction, g: Pos| #[trigger] next_to_goal(start@, s, d, g, goal, is_passable, should_expand)
                ==> heap_at_one(heap.elems(), g),
        decreases potential(heap.elems()),
    {
        let ghost hbefore = heap.elems();
        let popped = heap.pop();
        let next = match popped {
            None => {
                proof {
                    assert(heap.elems() =~= Seq::<(usize, Entry)>::empty());
                    assert(hbefore =~= Seq::<(usize, Entry)>::empty());
                    if lo {
                        lemma_complete(start@, goal, is_passable, visited@);
                    }
                    assert forall|s: Pos, d: Direction, g: Pos| !#[trigger] next_to_goal(start@, s, d, g, goal, is_passable, should_expand) by {
                        if next_to_goal(start@, s, d, g, goal, is_passable, should_expand) {
                            assert(heap_at_one(hbefore, g));
                        }
                    }
                }
                return None;
            },
            Some((_, next)) => next,
        };
        let ghost x = popped.unwrap();
        proof {
            let j = choose|j: int| 0 <= j < hbefore.len() && hbefore[j] == x;
            assert(heap_item_ok(visited@, hbefore[j], usize::MAX as int));
            assert(hbefore[j].0 >= cur);
            lemma_pop_potential(hbefore, heap.elems(), x);
            lemma_pow5_pos((usize::MAX - x.0) as nat);
            assert forall|k: int| 0 <= k < heap.elems().len() implies heap_item_ok(visited@, #[trigger] heap.elems()[k], usize::MAX as int)
                && heap.elems()[k].0 >= x.0 && item_links_down(visited@, rank, heap.elems()[k]) by {
                let y = heap.elems()[k];
                let i = choose|i: int| 0 <= i < hbefore.len() && hbefore[i] == y;
                assert(heap_item_ok(visited@, hbefore[i], usize::MAX as int));
                assert(item_links_down(visited@, rank, hbefore[i]));
                assert(x.0 <= hbefore[i].0);
            }
            assert(item_links_down(visited@, rank, hbefore[j]));
            if lo {
                lemma_witness_sub(start@, is_passable, visited@, hbefore, heap.elems());
                assert(items_witnessed(start@, is_passable, visited@, hbefore));
                assert(!hbefore[j].1.pos.level && walk_witness(start@, is_passable, visited@, hbefore[j].1.pos.pos, hbefore[j].0));
            }
        }
        let from_dir = match next.from {
            Some((d, _)) => Some(d),
            None => None,
        };
        if !is_passable(from_dir, next.pos.pos) {
            proof {
                if lo {
                    lemma_closed_pop(visited@, hbefore, heap.elems(), is_passable, x);
                    assert forall|c: CPos, d: Direction| has_node(visited@, c) && !c.level implies #[trigger] closed_at(
                        visited@,
                        heap.elems(),
                        is_passable,
                        c,
                        d,
                    ) by {
                        if step_in_range(c.pos, d) && enters(x.1, neighbor_of(c, d), d) {
                            assert(from_dir == Some(d));
                            assert(call_ensures(is_passable, (from_dir, stepped(c.pos, d)), false));
                        }
                    }
                }
                if sg {
                    lemma_bfs_drop(start@[0], visited@, hbefore, heap.elems(), x, cur as int, is_passable, from_dir);
                }
                assert forall|s: Pos, d: Direction, g: Pos| #[trigger] next_to_goal(start@, s, d, g, goal, is_passable, should_expand)
                    implies heap_at_one(heap.elems(), g) by {
                    if x.1.pos.pos == g {
                        assert(call_ensures(is_passable, (from_dir, g), false));
                    }
                    lemma_heap_at_one_pop(hbefore, heap.elems(), x, g);
                }
            }
            continue;
        }
        if goal(next.pos.pos) {
            proof {
                assert(visited_entry_ok(visited@, start@, is_passable, next));
                if lo && start@.len() == 1 {
                    let j = choose|j: int| 0 <= j < hbefore.len() && hbefore[j] == x;
                    assert(hbefore[j].1.pos != CPos { pos: start@[0], level: false });
                    assert(items_witnessed(start@, is_passable, visited@, hbefore));
                    assert(!hbefore[j].1.pos.level);
                }
            }
            proof {
                if sg {
                    let j = choose|j: int| 0 <= j < hbefore.len() && hbefore[j] == x;
                    assert(link_dist_ok(visited@, hbefore[j].1));
                    assert(seq![start@[0]] =~= start@);
                    assert forall|w: Seq<Pos>| #[trigger] admissible_walk(start@, w, goal, is_passable) implies x.0 + 1 <= w.len() by {
                        lemma_bfs_short(start@[0], visited@, hbefore, cur as int, x.0 as int, goal, is_passable, w);
                    }
                }
            }
            proof {
                let j = choose|j: int| 0 <= j < hbefore.len() && hbefore[j] == x;
                assert(item_links_down(visited@, rank, hbefore[j]));
                if lo {
                    assert(items_witnessed(start@, is_passable, visited@, hbefore));
                    assert(!hbefore[j].1.pos.level);
                }
            }
            let path = reconstruct::<P>(
                &visited,
                next,
                Ghost(start@),
                Ghost(is_passable),
                Ghost(rank),
                Ghost(counter),
                Ghost(sg),
                Ghost(lo),
            );
            return Some(path);
        }
        if next.dist == usize::MAX {
            proof {
                assert forall|s: Pos, d: Direction, g: Pos| !#[trigger] next_to_goal(start@, s, d, g, goal, is_passable, should_expand) by {
                    if next_to_goal(start@, s, d, g, goal, is_passable, should_expand) {
                        assert(heap_at_one(hbefore, g));
                        let k = choose|k: int| 0 <= k < hbefore.len() && (#[trigger] hbefore[k]).1.pos.pos == g && hbefore[k].0 == 1;
                        assert(x.0 <= hbefore[k].0);
                        let j = choose|j: int| 0 <= j < hbefore.len() && hbefore[j] == x;
                        assert(heap_item_ok(visited@, hbefore[j], usize::MAX as int));
                    }
                }
                if lo {
                    let w = choose|w: Seq<Pos>| #[trigger] walk_fits(start@, is_passable, visited@, x.1.pos.pos, x.0, w);
                    assert(walk_fits(start@, is_passable, visited@, x.1.pos.pos, x.0, w));
                    assert forall|i: int| 1 <= i < w.len() implies may_pass(is_passable, #[trigger] w[i]) by {
                        if i == w.len() - 1 {
                            assert(call_ensures(is_passable, (from_dir, w[i]), true));
                        }
                    }
                    assert(walk_from(start@, w));
                }
                if sg {
                    assert(seq![start@[0]] =~= start@);
                    assert forall|w: Seq<Pos>| #[trigger] admissible_walk(start@, w, goal, is_passable) implies w.len() > usize::MAX by {
                        lemma_bfs_short(start@[0], visited@, hbefore, cur as int, usize::MAX as int, goal, is_passable, w);
                    }
                }
            }
            return None;
        }
        let ghost vbefore = visited@;
        let ghost hmid = heap.elems();
        visited_insert(&mut visited, next);
        proof {
            assert forall|k: int| 0 <= k < visited@.len() implies visited_entry_ok(visited@, start@, is_passable, #[trigger] visited@[k]) by {
                assert(vbefore.push(next).contains(visited@[k]));
                let j = choose|j: int| 0 <= j < vbefore.push(next).len() && vbefore.push(next)[j] == visited@[k];
                if j < vbefore.len() {
                    assert(vbefore[j] == visited@[k]);
                    assert(visited_entry_ok(vbefore, start@, is_passable, vbefore[j]));
                }
            }
            assert forall|k: int| 0 <= k < heap.elems().len() implies heap_item_ok(visited@, #[trigger] heap.elems()[k], usize::MAX as int) by {
                assert(heap_item_ok(vbefore, heap.elems()[k], usize::MAX as int));
            }
            assert forall|c: CPos| has_node(visited@, c) implies #[trigger] start_or_no_goal(start@, goal, c) by {
                lemma_visited_after_insert(vbefore, visited@, next, c);
                if has_node(vbefore, c) {
                    assert(start_or_no_goal(start@, goal, c));
                }
            }
            if lo {
                let j = choose|j: int| 0 <= j < hbefore.len() && hbefore[j] == x;
                assert(items_witnessed(start@, is_passable, vbefore, hbefore));
                assert(!hbefore[j].1.pos.level);
            }
            assert forall|k: int| 0 <= k < visited@.len() implies (#[trigger] visited@[k]).dist <= x.0 && (lo ==> !visited@[k].pos.level) by {
                assert(vbefore.push(next).contains(visited@[k]));
                let j = choose|j: int| 0 <= j < vbefore.push(next).len() && vbefore.push(next)[j] == visited@[k];
                if j < vbefore.len() {
                    assert(vbefore[j] == visited@[k]);
                }
            }
            let cur_before = cur;
            cur = x.0;
            assert forall|k: int| 0 <= k < hmid.len() implies heap_entry_ok(vbefore, (#[trigger] hmid[k]).1) by {
                assert(heap_item_ok(vbefore, hmid[k], usize::MAX as int));
            }
            let rc = lemma_rank_visit(vbefore, visited@, hmid, rank, counter, next);
            rank = rc.0;
            counter = rc.1;
            if sg {
                let j = choose|j: int| 0 <= j < hbefore.len() && hbefore[j] == x;
                assert(heap_item_ok(vbefore, hbefore[j], usize::MAX as int));
                lemma_bfs_visit(start@[0], vbefore, visited@, hbefore, hmid, x, cur_before as int, is_passable);
            }
            if lo {
                lemma_closed_pop(vbefore, hbefore, hmid, is_passable, x);
                lemma_closed_after_visit(vbefore, visited@, hmid, is_passable, x);
                lemma_witness_grow(start@, is_passable, vbefore, visited@, hmid);
                lemma_walk_grow(start@, is_passable, vbefore, visited@, x.1.pos.pos, x.0);
            }
        }
        insert_neighbors(&mut heap, &visited, next.pos, next.dist, from_dir, &should_expand);
        proof {
            assert forall|k: int| 0 <= k < heap.elems().len() implies heap_item_ok(visited@, #[trigger] heap.elems()[k], usize::MAX as int)
                && heap.elems()[k].0 >= cur by {
                let y = heap.elems()[k];
                if hmid.contains(y) {
                    let j = choose|j: int| 0 <= j < hmid.len() && hmid[j] == y;
                    assert(heap_item_ok(visited@, hmid[j], usize::MAX as int));
                }
            }
            lemma_rank_expand(visited@, hmid, heap.elems(), rank, next.pos, next.dist, from_dir, should_expand);
            assert forall|s: Pos, d: Direction, g: Pos| #[trigger] next_to_goal(start@, s, d, g, goal, is_passable, should_expand)
                implies heap_at_one(heap.elems(), g) by {
                if x.1.pos.pos == g {
                    assert(call_ensures(goal, (g,), false));
                }
                lemma_heap_at_one_pop(hbefore, hmid, x, g);
                lemma_heap_at_one_grow(hmid, heap.elems(), g);
            }
            lemma_new_items_unvisited(visited@, hmid, heap.elems(), next.pos, next.dist, from_dir, should_expand);
            if sg {
                let j = choose|j: int| 0 <= j < hbefore.len() && hbefore[j] == x;
                assert(items_witnessed(start@, is_passable, vbefore, hbefore));
                assert(!hbefore[j].1.pos.level);
                lemma_bfs_expand(start@[0], visited@, hmid, heap.elems(), next.pos, next.dist, from_dir, should_expand, is_passable);
            }
            if start@.len() == 1 {
                assert(has_node(visited@, CPos { pos: start@[0], level: false }));
                assert forall|k: int| 0 <= k < heap.elems().len() implies (#[trigger] heap.elems()[k]).1.pos != (CPos { pos: start@[0], level: false }) by {
                    let y = heap.elems()[k];
                    if hmid.contains(y) {
                        let j = choose|j: int| 0 <= j < hmid.len() && hmid[j] == y;
                        let i = choose|i: int| 0 <= i < hbefore.len() && hbefore[i] == hmid[j];
                    }
                }
            }
            lemma_pow5_step((usize::MAX - x.0 - 1) as nat);
            assert((usize::MAX - x.0 - 1) as nat + 1 == (usize::MAX - x.0) as nat);
            if lo {
                lemma_expanded_closed(start@, is_passable, should_expand, visited@, hmid, heap.elems(), next.pos, next.dist, from_dir);
                lemma_expanded_items(start@, is_passable, should_expand, visited@, hmid, heap.elems(), x, from_dir, cur);
            }
        }
    }
}

/// Searches from the starts for a node that satisfies `goal`, on the first level only.
///
/// A path comes back goal first and start last. The search finds one whenever a walk from a
/// start reaches a goal tile that is no start through tiles that pass when entered from the tile before,
/// unless the region open to it is so vast that distances, counted in `usize`, run out. With a
/// single start, a path never ends on the start again, and none of those walks is shorter. No
/// tile occurs twice on a path.
pub fn find_multipath<G, P>(start: &Vec<Pos>, goal: G, is_passable: P) -> (r: Option<Vec<Pos>>) where
    G: Fn(Pos) -> bool,
    P: Fn(Option<Direction>, Pos) -> bool,

    requires
        forall|p: Pos| call_requires(goal, (p,)),
        forall|d: Option<Direction>, p: Pos| call_requires(is_passable, (d, p)),
    ensures
        r matches Some(path) ==> found_path(start@, path@, goal, is_passable),
        r is None ==> (forall|w: Seq<Pos>| !#[trigger] admissible_walk(start@, w, goal, is_passable))
            || vast_region(start@, is_passable),
        start@.len() == 1 ==> (r matches Some(path) ==> path@[0] != start@[0]),
        r matches Some(path) ==> path@.no_duplicates(),
        start@.len() == 1 && r is None ==> forall|w: Seq<Pos>|
            #[trigger] admissible_walk(start@, w, goal, is_passable) ==> w.len() > usize::MAX,
        start@.len() == 1 ==> (r matches Some(path) ==> forall|w: Seq<Pos>|
            #[trigger] admissible_walk(start@, w, goal, is_passable) ==> path@.len() <= w.len()),
{
    let one = |_d: Direction, _c: CPos, _f: Option<Direction>| -> (lt: LevelTarget)
        ensures
            lt == LevelTarget::One,
        { LevelTarget::One };
    proof {
        assert(levels_one(one));
    }
    find_multipath_should_expand(start, goal, is_passable, one)
}

/// A path from `start` to `goal` through tiles for which `is_passable` holds, goal first and
/// start last.
pub open spec fn is_path_between<P: Fn(Pos) -> bool>(start: Pos, goal: Pos, path: Seq<Pos>, is_passable: P) -> bool {
    &&& path.len() >= 2
    &&& path[0] == goal
    &&& path.last() == start
    &&& forall|k: int|
        0 <= k < path.len() - 1 ==> call_ensures(is_passable, (#[trigger] path[k],), true) && exists|d: Direction|
            #[trigger] step_to(path[k + 1], d, path[k])
}

pub(crate) fn pos_eq(a: Pos, b: Pos) -> (r: bool)
    ensures
        r == (a == b),
{
    let r = a[0] == b[0] && a[1] == b[1];
    proof {
        if r {
            assert(a@ =~= b@);
            assert(a == b);
        }
        if a == b {
            assert(a@[0] == b@[0] && a@[1] == b@[1]);
        }
    }
    r
}

/// A path from `start` to `goal` whose tiles past the start pass whatever the test gives
/// (goal first and start last).
pub open spec fn open_path<P: Fn(Pos) -> bool>(start: Pos, goal: Pos, path: Seq<Pos>, is_passable: P) -> bool {
    &&& path.len() >= 2
    &&& path[0] == goal
    &&& path.last() == start
    &&& forall|k: int| 0 <= k < path.len() - 1 ==> #[trigger] open_step(path, k, is_passable)
}

/// Tile `k` of a path passes whatever the test gives and is one step from tile `k + 1`.
pub open spec fn open_step<P: Fn(Pos) -> bool>(path: Seq<Pos>, k: int, is_passable: P) -> bool {
    passes_surely(is_passable, path[k]) && exists|d: Direction| #[trigger] step_to(path[k + 1], d, path[k])
}

/// The test holds on tile `p`, whatever call it is.
pub open spec fn passes_surely<P: Fn(Pos) -> bool>(is_passable: P, p: Pos) -> bool {
    forall|r: bool| #[trigger] call_ensures(is_passable, (p,), r) ==> r
}

/// A path from `start` to `goal`, goal first, whose tiles past the start satisfy `good`.
pub open spec fn path_over(start: Pos, goal: Pos, path: Seq<Pos>, good: spec_fn(Pos) -> bool) -> bool {
    &&& path.len() >= 2
    &&& path[0] == goal
    &&& path.last() == start
    &&& forall|k: int|
        0 <= k < path.len() - 1 ==> good(#[trigger] path[k]) && exists|d: Direction| #[trigger] step_to(path[k + 1], d, path[k])
}

/// For a test that tells exactly whether `good` holds, what a search that found no open path
/// of at most `usize::MAX` tiles states reads over `good`.
pub proof fn lemma_open_over<P: Fn(Pos) -> bool>(start: Pos, goal: Pos, pass: P, good: spec_fn(Pos) -> bool)
    requires
        forall|p: Pos, r: bool| #[trigger] call_ensures(pass, (p,), r) ==> r == good(p),
        forall|q: Seq<Pos>| #[trigger] open_path(start, goal, q, pass) ==> q.len() > usize::MAX,
    ensures
        forall|q: Seq<Pos>| #[trigger] path_over(start, goal, q, good) ==> q.len() > usize::MAX,
{
    assert forall|q: Seq<Pos>| #[trigger] path_over(start, goal, q, good) implies q.len() > usize::MAX by {
        assert forall|k: int| 0 <= k < q.len() - 1 implies #[trigger] open_step(q, k, pass) by {
            assert(good(q[k]));
        }
        assert(open_path(start, goal, q, pass));
    }
}

/// An open path, read from the start, is a walk that the search must find.
proof fn lemma_open_path_walk<P: Fn(Pos) -> bool, G: Fn(Pos) -> bool, Q: Fn(Option<Direction>, Pos) -> bool>(
    start: Pos,
    goal: Pos,
    q: Seq<Pos>,
    is_passable: P,
    goal_fn: G,
    pass_fn: Q,
)
    requires
        open_path(start, goal, q, is_passable),
        start != goal,
        forall|p: Pos, r: bool| #[trigger] call_ensures(goal_fn, (p,), r) ==> r == (p == goal),
        forall|f: Option<Direction>, p: Pos, r: bool| #[trigger] call_ensures(pass_fn, (f, p), r) ==> call_ensures(is_passable, (p,), r),
    ensures
        admissible_walk(seq![start], q.reverse(), goal_fn, pass_fn),
{
    let w = q.reverse();
    let n = q.len() as int;
    assert(w[0] == q[n - 1]);
    assert(seq![start].contains(w[0])) by {
        assert(seq![start][0] == w[0]);
    }
    assert forall|i: int| 0 <= i < w.len() - 1 implies #[trigger] walk_step(w, i) by {
        let k = n - 2 - i;
        assert(open_step(q, k, is_passable));
        assert(w[i] == q[k + 1] && w[i + 1] == q[k]);
        let d = choose|d: Direction| #[trigger] step_to(q[k + 1], d, q[k]);
        assert(step_to(w[i], d, w[i + 1]));
    }
    assert forall|i: int| 1 <= i < w.len() implies #[trigger] passes_into(pass_fn, w, i) by {
        let k = n - 1 - i;
        if k < n - 1 {
            assert(open_step(q, k, is_passable));
        }
        assert(w[i] == q[k]);
        assert forall|d: Direction, r: bool|
            step_to(w[i - 1], d, w[i]) && #[trigger] call_ensures(pass_fn, (Some(d), w[i]), r) implies r by {
            assert(call_ensures(is_passable, (q[k],), r));
            assert(passes_surely(is_passable, q[k]));
        }
    }
    assert(w.last() == q[0]);
    assert forall|r: bool| #[trigger] call_ensures(goal_fn, (w.last(),), r) implies r by {
    }
    assert(!seq![start].contains(w.last())) by {
        if seq![start].contains(w.last()) {
            let j = choose|j: int| 0 <= j < seq![start].len() && seq![start][j] == w.last();
            assert(seq![start][j] == start);
        }
    }
}

/// Searches for a path from `start` to `goal` through tiles for which `is_passable` holds.
///
/// The start is never entered again, so a goal equal to the start gives `None`. Otherwise a
/// path is found whenever an open one of at most `usize::MAX` tiles exists (distances are
/// counted in `usize`); no open path is shorter than the one found, on which no tile occurs
/// twice.
pub fn find_path<P: Fn(Pos) -> bool>(start: Pos, goal: Pos, is_passable: P) -> (r: Option<Vec<Pos>>)
    requires
        forall|p: Pos| call_requires(is_passable, (p,)),
    ensures
        r matches Some(path) ==> is_path_between(start, goal, path@, is_passable),
        r matches Some(path) ==> forall|q: Seq<Pos>| #[trigger] open_path(start, goal, q, is_passable) ==> path@.len() <= q.len(),
        r matches Some(path) ==> path@.no_duplicates(),
        start == goal ==> r is None,
        start != goal && r is None ==> forall|q: Seq<Pos>| #[trigger] open_path(start, goal, q, is_passable) ==> q.len() > usize::MAX,
{
    let mut starts: Vec<Pos> = Vec::new();
    starts.push(start);
    let goal_fn = |pos: Pos| -> (r: bool)
        ensures
            r == (pos == goal),
        { pos_eq(pos, goal) };
    let ip = &is_passable;
    let pass_fn = |_d: Option<Direction>, pos: Pos| -> (r: bool)
        requires
            call_requires(ip, (pos,)),
        ensures
            call_ensures(ip, (pos,), r),
        { ip(pos) };
    let r = find_multipath(&starts, goal_fn, pass_fn);
    proof {
        assert(starts@ =~= seq![start]);
        if let Some(ref path) = r {
            assert(starts@.contains(path@.last()));
            let j = choose|j: int| 0 <= j < starts@.len() && starts@[j] == path@.last();
            assert(starts@[0] == start);
            assert(call_ensures(goal_fn, (path@[0],), true));
            assert forall|q: Seq<Pos>| #[trigger] open_path(start, goal, q, is_passable) implies path@.len() <= q.len() by {
                lemma_open_path_walk(start, goal, q, is_passable, goal_fn, pass_fn);
                assert(admissible_walk(starts@, q.reverse(), goal_fn, pass_fn));
            }
        }
        if start != goal && r is None {
            assert forall|q: Seq<Pos>| #[trigger] open_path(start, goal, q, is_passable) implies q.len() > usize::MAX by {
                lemma_open_path_walk(start, goal, q, is_passable, goal_fn, pass_fn);
                assert(admissible_walk(starts@, q.reverse(), goal_fn, pass_fn));
            }
        }
    }
    r
}

} // verus!
