//! Restoring a saved colony: the saved chunks go over the map, the saved entities replace
//! the current ones, and the caches of transports expected by buildings and sites, which are
//! not saved, are rebuilt from where each transport's way ends.
use vstd::prelude::*;

use crate::building::{rect_contains, spec_size, Building};
use crate::construction::Construction;
use crate::crew::{find_building_at, Crew};
use crate::entity::{lookup, EntityEntry, EntityId, EntitySet, EntryPayload};
use crate::game::AsteroidColoniesGame;
use crate::push_pull::{buildings_ok, first_at, none_at, occupant, same_but_expected};
use crate::task::GlobalTask;
use crate::tile::{chunk_wf, lookup_chunk, Chunk, Position};
use crate::transport::{Transport, TransportId};
use crate::Pos;

verus! {

/// Whether the site covers tile `p`, as `Construction::intersects` tests it (its far edges
/// included).
pub open spec fn site_covers(c: Construction, p: Pos) -> bool {
    &&& c.spec_pos()[0] <= p[0] <= c.spec_pos()[0] + c.spec_size().0
    &&& c.spec_pos()[1] <= p[1] <= c.spec_pos()[1] + c.spec_size().1
}

/// Slot `j` holds the first site, in slot order, that covers `p`.
pub open spec fn first_site_covering(cs: Seq<EntityEntry<Construction>>, p: Pos, j: int) -> bool {
    &&& 0 <= j < cs.len()
    &&& cs[j].payload is Occupied
    &&& site_covers(cs[j].payload->Occupied_0, p)
    &&& forall|i: int| 0 <= i < j ==> !(#[trigger] cs[i].payload is Occupied && site_covers(cs[i].payload->Occupied_0, p))
}

/// No site covers `p`.
pub open spec fn no_site_covering(cs: Seq<EntityEntry<Construction>>, p: Pos) -> bool {
    forall|i: int| 0 <= i < cs.len() ==> !(#[trigger] cs[i].payload is Occupied && site_covers(cs[i].payload->Occupied_0, p))
}

/// The last tile of the way of the transport that `id` resolves to, if it resolves and its way
/// is not empty.
pub open spec fn transport_end(ts: Seq<EntityEntry<Transport>>, id: TransportId) -> Option<Pos> {
    match lookup(ts, id) {
        Some(t) => if t.path@.len() > 0 {
            Some(t.path@.last())
        } else {
            None
        },
        None => None,
    }
}

/// The building in slot `i` expects the transport `id`: the way ends in that building and in
/// no building of an earlier slot.
pub open spec fn expected_by_building(bs: Seq<EntityEntry<Building>>, ts: Seq<EntityEntry<Transport>>, id: TransportId, i: int) -> bool {
    transport_end(ts, id) matches Some(p) && first_at(bs, p, i)
}

/// The site in slot `j` expects the transport `id`: the way ends in no building, in that
/// site, and in no site of an earlier slot.
pub open spec fn expected_by_site(
    bs: Seq<EntityEntry<Building>>,
    cs: Seq<EntityEntry<Construction>>,
    ts: Seq<EntityEntry<Transport>>,
    id: TransportId,
    j: int,
) -> bool {
    transport_end(ts, id) matches Some(p) && none_at(bs, p) && first_site_covering(cs, p, j)
}

/// The chunk that a map holds under `cp` once `given` is laid over `old`: the last given chunk
/// for `cp`, else the old one.
pub open spec fn merged_chunk(old: Seq<(Position, Chunk)>, given: Seq<(Position, Chunk)>, cp: Position) -> Option<Chunk> {
    match lookup_chunk(given, cp) {
        Some(c) => Some(c),
        None => lookup_chunk(old, cp),
    }
}

proof fn lemma_first_at_unique(bs: Seq<EntityEntry<Building>>, p: Pos, i: int, j: int)
    requires
        first_at(bs, p, i),
        first_at(bs, p, j),
    ensures
        i == j,
{
    if i < j {
        assert(bs[i].payload is Occupied);
    } else if j < i {
        assert(bs[j].payload is Occupied);
    }
}

proof fn lemma_first_site_unique(cs: Seq<EntityEntry<Construction>>, p: Pos, i: int, j: int)
    requires
        first_site_covering(cs, p, i),
        first_site_covering(cs, p, j),
    ensures
        i == j,
{
    if i < j {
        assert(cs[i].payload is Occupied);
    } else if j < i {
        assert(cs[j].payload is Occupied);
    }
}

/// The first site, in slot order, covering `p`.
fn covering_site(cs: &EntitySet<Construction>, p: Pos) -> (r: Option<usize>)
    ensures
        r matches Some(j) ==> first_site_covering(cs.slots(), p, j as int),
        r is None ==> no_site_covering(cs.slots(), p),
{
    let ghost s = cs.slots();
    let n = cs.num_slots();
    let mut k: usize = 0;
    while k < n
        invariant
            n == s.len(),
            k <= n,
            s == cs.slots(),
            forall|m: int| 0 <= m < k ==> !(#[trigger] s[m].payload is Occupied && site_covers(s[m].payload->Occupied_0, p)),
        decreases n - k,
    {
        match cs.get_at(k) {
            Some(c) => {
                if c.intersects(p) {
                    return Some(k);
                }
            },
            None => {},
        }
        k = k + 1;
    }
    None
}

/// Who expects the transport of each slot: `Some((true, i))` the building of slot `i`,
/// `Some((false, j))` the site of slot `j`, None nobody (a free slot, an empty way, or a way
/// ending in no building and no site).
fn owners(
    buildings: &EntitySet<Building>,
    constructions: &EntitySet<Construction>,
    transports: &EntitySet<Transport>,
) -> (r: Vec<Option<(bool, usize)>>)
    requires
        buildings_ok(buildings.slots()),
    ensures
        r@.len() == transports.slots().len(),
        forall|k: int| 0 <= k < r@.len() ==> owner_ok(buildings.slots(), constructions.slots(), transports.slots()[k], #[trigger] r@[k]),
{
    let ghost ts = transports.slots();
    let n = transports.num_slots();
    let mut r: Vec<Option<(bool, usize)>> = Vec::new();
    let mut k: usize = 0;
    while k < n
        invariant
            n == ts.len(),
            ts == transports.slots(),
            k <= n,
            r@.len() == k,
            buildings_ok(buildings.slots()),
            forall|m: int| 0 <= m < k ==> owner_ok(buildings.slots(), constructions.slots(), ts[m], #[trigger] r@[m]),
        decreases n - k,
    {
        let o = match transports.get_at(k) {
            Some(t) => {
                let len = t.path.len();
                if len == 0 {
                    None
                } else {
                    let p = t.path[len - 1];
                    match find_building_at(buildings, p) {
                        Some(i) => Some((true, i)),
                        None => match covering_site(constructions, p) {
                            Some(j) => Some((false, j)),
                            None => None,
                        },
                    }
                }
            },
            None => None,
        };
        r.push(o);
        proof {
            assert(r@[k as int] == o);
        }
        k = k + 1;
    }
    r
}

/// What `owners` records for a transport slot.
pub open spec fn owner_ok(
    bs: Seq<EntityEntry<Building>>,
    cs: Seq<EntityEntry<Construction>>,
    e: EntityEntry<Transport>,
    o: Option<(bool, usize)>,
) -> bool {
    if e.payload is Occupied && e.payload->Occupied_0.path@.len() > 0 {
        let p = e.payload->Occupied_0.path@.last();
        match o {
            Some((true, i)) => first_at(bs, p, i as int),
            Some((false, j)) => none_at(bs, p) && first_site_covering(cs, p, j as int),
            None => none_at(bs, p) && no_site_covering(cs, p),
        }
    } else {
        o is None
    }
}

/// The transport `id` is recorded for owner `o` in `own`: its slot's record is `o` and its
/// generation is the slot's.
pub open spec fn recorded(ts: Seq<EntityEntry<Transport>>, own: Seq<Option<(bool, usize)>>, id: TransportId, o: Option<(bool, usize)>) -> bool {
    &&& id.index() < own.len()
    &&& own[id.index() as int] == o
    &&& id.generation() == ts[id.index() as int].gen
}

/// A transport is recorded for building `i` exactly when that building expects it.
proof fn lemma_building_record(
    bs: Seq<EntityEntry<Building>>,
    cs: Seq<EntityEntry<Construction>>,
    ts: Seq<EntityEntry<Transport>>,
    own: Seq<Option<(bool, usize)>>,
    id: TransportId,
    i: usize,
)
    requires
        own.len() == ts.len(),
        forall|k: int| 0 <= k < own.len() ==> owner_ok(bs, cs, ts[k], #[trigger] own[k]),
    ensures
        recorded(ts, own, id, Some((true, i))) <==> expected_by_building(bs, ts, id, i as int),
{
    let k = id.index() as int;
    if k < own.len() {
        assert(owner_ok(bs, cs, ts[k], own[k]));
        if expected_by_building(bs, ts, id, i as int) {
            let p = transport_end(ts, id)->Some_0;
            match own[k] {
                Some((true, i2)) => {
                    lemma_first_at_unique(bs, p, i as int, i2 as int);
                },
                Some((false, _)) => {
                    assert(bs[i as int].payload is Occupied);
                },
                None => {
                    assert(bs[i as int].payload is Occupied);
                },
            }
        }
    }
}

/// A transport is recorded for site `j` exactly when that site expects it.
proof fn lemma_site_record(
    bs: Seq<EntityEntry<Building>>,
    cs: Seq<EntityEntry<Construction>>,
    ts: Seq<EntityEntry<Transport>>,
    own: Seq<Option<(bool, usize)>>,
    id: TransportId,
    j: usize,
)
    requires
        own.len() == ts.len(),
        forall|k: int| 0 <= k < own.len() ==> owner_ok(bs, cs, ts[k], #[trigger] own[k]),
    ensures
        recorded(ts, own, id, Some((false, j))) <==> expected_by_site(bs, cs, ts, id, j as int),
{
    let k = id.index() as int;
    if k < own.len() {
        assert(owner_ok(bs, cs, ts[k], own[k]));
        if expected_by_site(bs, cs, ts, id, j as int) {
            let p = transport_end(ts, id)->Some_0;
            match own[k] {
                Some((true, i2)) => {
                    assert(bs[i2 as int].payload is Occupied);
                },
                Some((false, j2)) => {
                    lemma_first_site_unique(cs, p, j as int, j2 as int);
                },
                None => {
                    assert(cs[j as int].payload is Occupied);
                },
            }
        }
    }
}

/// The ids of the transports recorded for owner `o`, in slot order.
fn recorded_ids(transports: &EntitySet<Transport>, own: &Vec<Option<(bool, usize)>>, o: (bool, usize)) -> (r: Vec<TransportId>)
    requires
        own@.len() == transports.slots().len(),
        transports.slots().len() <= u32::MAX,
    ensures
        forall|id: TransportId| #[trigger] r@.contains(id) <==> recorded(transports.slots(), own@, id, Some(o)),
{
    let ghost ts = transports.slots();
    let n = own.len();
    let mut r: Vec<TransportId> = Vec::new();
    let mut k: usize = 0;
    while k < n
        invariant
            n == own@.len(),
            n == ts.len(),
            ts == transports.slots(),
            n <= u32::MAX,
            k <= n,
            forall|id: TransportId| #[trigger] r@.contains(id) <==> (recorded(ts, own@, id, Some(o)) && id.index() < k),
        decreases n - k,
    {
        let mine = match own[k] {
            Some((b, j)) => b == o.0 && j == o.1,
            None => false,
        };
        if mine {
            let id = EntityId::new(k as u32, transports.slot_gen(k));
            let ghost before = r@;
            r.push(id);
            proof {
                assert forall|x: TransportId| #[trigger] r@.contains(x) <==> (recorded(ts, own@, x, Some(o)) && x.index() < k + 1) by {
                    if x.index() == k && recorded(ts, own@, x, Some(o)) {
                        crate::entity::lemma_id_ext(x, id);
                        assert(r@[before.len() as int] == id);
                    }
                    if r@.contains(x) {
                        let m = choose|m: int| 0 <= m < r@.len() && r@[m] == x;
                        if m < before.len() {
                            assert(before[m] == x);
                            assert(before.contains(x));
                        }
                    }
                    if before.contains(x) {
                        let m = choose|m: int| 0 <= m < before.len() && before[m] == x;
                        assert(r@[m] == x);
                    }
                }
            }
        } else {
            proof {
                assert forall|x: TransportId| #[trigger] r@.contains(x) <==> (recorded(ts, own@, x, Some(o)) && x.index() < k + 1) by {
                    if x.index() == k && recorded(ts, own@, x, Some(o)) {
                        assert(own@[k as int] == Some(o));
                    }
                }
            }
        }
        k = k + 1;
    }
    r
}

/// The saved building `e0` after the restore: its cache holds exactly the transports it
/// expects; everything else is as saved.
pub open spec fn building_restored(
    bs: Seq<EntityEntry<Building>>,
    ts: Seq<EntityEntry<Transport>>,
    i: int,
    e0: EntityEntry<Building>,
    e1: EntityEntry<Building>,
) -> bool {
    &&& e1.gen == e0.gen
    &&& e0.payload is Free ==> e1 == e0
    &&& e0.payload is Occupied ==> {
        &&& e1.payload is Occupied
        &&& same_but_expected(occupant(e0), occupant(e1))
        &&& forall|id: TransportId| #[trigger] occupant(e1).expected_transports@.contains(id) <==> expected_by_building(bs, ts, id, i)
    }
}

/// The saved site `e0` after the restore: its cache holds exactly the transports it expects;
/// everything else is as saved.
pub open spec fn site_restored(
    bs: Seq<EntityEntry<Building>>,
    cs: Seq<EntityEntry<Construction>>,
    ts: Seq<EntityEntry<Transport>>,
    j: int,
    e0: EntityEntry<Construction>,
    e1: EntityEntry<Construction>,
) -> bool {
    &&& e1.gen == e0.gen
    &&& e0.payload is Free ==> e1 == e0
    &&& e0.payload is Occupied ==> {
        let c0 = e0.payload->Occupied_0;
        &&& e1.payload is Occupied
        &&& e1.payload->Occupied_0.spec_type() == c0.spec_type()
        &&& e1.payload->Occupied_0.spec_pos() == c0.spec_pos()
        &&& e1.payload->Occupied_0.spec_ingredients() == c0.spec_ingredients()
        &&& e1.payload->Occupied_0.spec_recipe() == c0.spec_recipe()
        &&& e1.payload->Occupied_0.spec_canceling() == c0.spec_canceling()
        &&& e1.payload->Occupied_0.spec_progress() == c0.spec_progress()
        &&& forall|id: TransportId| #[trigger] e1.payload->Occupied_0.expected().contains(id) <==> expected_by_site(bs, cs, ts, id, j)
    }
}

impl AsteroidColoniesGame {
    /// Restores a saved colony: the saved chunks are laid over the map, position by position;
    /// the saved buildings, crews, tasks, time, transports and sites replace the current ones;
    /// and each building and site expects exactly the transports whose way ends in it: in the
    /// first building, in slot order, covering the way's last tile, or else in the first site
    /// covering it. The power figures and the conveyor plans stay.
    pub fn restore(
        &mut self,
        chunks: Vec<(Position, Chunk)>,
        buildings: EntitySet<Building>,
        crews: EntitySet<Crew>,
        global_tasks: EntitySet<GlobalTask>,
        global_time: usize,
        transports: EntitySet<Transport>,
        constructions: EntitySet<Construction>,
    )
        requires
            old(self).tiles.wf(),
            forall|k: int| 0 <= k < chunks@.len() ==> chunk_wf(#[trigger] chunks@[k].1),
            buildings_ok(buildings.slots()),
            transports.slots().len() <= u32::MAX,
        ensures
            final(self).tiles.wf(),
            forall|cp: Position| #[trigger] lookup_chunk(final(self).tiles.chunk_seq(), cp)
                == merged_chunk(old(self).tiles.chunk_seq(), chunks@, cp),
            final(self).crews == crews,
            final(self).global_tasks == global_tasks,
            final(self).global_time == global_time,
            final(self).transports == transports,
            final(self).power_ratio == old(self).power_ratio,
            final(self).used_power == old(self).used_power,
            final(self).conveyor_staged == old(self).conveyor_staged,
            final(self).conveyor_preview == old(self).conveyor_preview,
            buildings_ok(final(self).buildings.slots()),
            final(self).buildings.slots().len() == buildings.slots().len(),
            final(self).buildings.free_head() == buildings.free_head(),
            forall|i: int| 0 <= i < buildings.slots().len() ==> building_restored(
                buildings.slots(),
                transports.slots(),
                i,
                buildings.slots()[i],
                #[trigger] final(self).buildings.slots()[i],
            ),
            final(self).constructions.slots().len() == constructions.slots().len(),
            final(self).constructions.free_head() == constructions.free_head(),
            forall|j: int| 0 <= j < constructions.slots().len() ==> site_restored(
                buildings.slots(),
                constructions.slots(),
                transports.slots(),
                j,
                constructions.slots()[j],
                #[trigger] final(self).constructions.slots()[j],
            ),
    {
        let ghost old_seq = self.tiles.chunk_seq();
        let ghost all = chunks@;
        let mut rest = chunks;
        let total = rest.len();
        let mut k: usize = 0;
        proof {
            assert(all.take(0) =~= Seq::<(Position, Chunk)>::empty());
        }
        while rest.len() > 0
            invariant
                k <= all.len(),
                all.len() == total,
                rest@ == all.skip(k as int),
                self.power_ratio == old(self).power_ratio,
                self.used_power == old(self).used_power,
                self.conveyor_staged == old(self).conveyor_staged,
                self.conveyor_preview == old(self).conveyor_preview,
                self.tiles.wf(),
                forall|m: int| 0 <= m < all.len() ==> chunk_wf(#[trigger] all[m].1),
                forall|cp: Position| #[trigger] lookup_chunk(self.tiles.chunk_seq(), cp) == merged_chunk(old_seq, all.take(k as int), cp),
            decreases rest@.len(),
        {
            let (cp, c) = rest.remove(0);
            proof {
                assert((cp, c) == all[k as int]);
                assert(rest@ =~= all.skip(k + 1));
            }
            let ghost before = self.tiles.chunk_seq();
            self.tiles.insert_chunk(cp, c);
            proof {
                let t1 = all.take(k + 1);
                assert(t1.drop_last() =~= all.take(k as int));
                assert(t1.last() == (cp, c));
                assert forall|q: Position| #[trigger] lookup_chunk(self.tiles.chunk_seq(), q) == merged_chunk(old_seq, t1, q) by {
                    assert(lookup_chunk(t1, q) == if q == cp { Some(c) } else { lookup_chunk(all.take(k as int), q) });
                }
            }
            k = k + 1;
        }
        proof {
            assert(all.take(k as int) =~= all);
        }
        let own = owners(&buildings, &constructions, &transports);
        let ghost bs0 = buildings.slots();
        let ghost cs0 = constructions.slots();
        let ghost ts0 = transports.slots();
        let ghost bfree = buildings.free_head();
        let ghost cfree = constructions.free_head();
        let mut buildings = buildings;
        let nb = buildings.num_slots();
        let mut i: usize = 0;
        while i < nb
            invariant
                nb == bs0.len(),
                i <= nb,
                buildings.slots().len() == nb,
                buildings.free_head() == bfree,
                                buildings_ok(bs0),
                own@.len() == ts0.len(),
                ts0 == transports.slots(),
                ts0.len() <= u32::MAX,
                forall|m: int| 0 <= m < own@.len() ==> owner_ok(bs0, cs0, ts0[m], #[trigger] own@[m]),
                forall|m: int| i <= m < nb ==> #[trigger] buildings.slots()[m] == bs0[m],
                forall|m: int| 0 <= m < i ==> building_restored(bs0, ts0, m, bs0[m], #[trigger] buildings.slots()[m]),
            decreases nb - i,
        {
            if buildings.get_at(i).is_some() {
                let ids = recorded_ids(&transports, &own, (true, i));
                let mut b = buildings.remove_at(i).unwrap();
                let ghost b0 = b;
                b.expected_transports = ids;
                buildings.put_at(i, b);
                proof {
                    assert forall|id: TransportId| #[trigger] b.expected_transports@.contains(id) <==> expected_by_building(bs0, ts0, id, i as int) by {
                        lemma_building_record(bs0, cs0, ts0, own@, id, i);
                    }
                    assert(building_restored(bs0, ts0, i as int, bs0[i as int], buildings.slots()[i as int]));
                }
            }
            i = i + 1;
        }
        let mut constructions = constructions;
        let nc = constructions.num_slots();
        let mut j: usize = 0;
        while j < nc
            invariant
                nc == cs0.len(),
                j <= nc,
                constructions.slots().len() == nc,
                constructions.free_head() == cfree,
                                own@.len() == ts0.len(),
                ts0 == transports.slots(),
                ts0.len() <= u32::MAX,
                forall|m: int| 0 <= m < own@.len() ==> owner_ok(bs0, cs0, ts0[m], #[trigger] own@[m]),
                forall|m: int| j <= m < nc ==> #[trigger] constructions.slots()[m] == cs0[m],
                forall|m: int| 0 <= m < j ==> site_restored(bs0, cs0, ts0, m, cs0[m], #[trigger] constructions.slots()[m]),
            decreases nc - j,
        {
            if constructions.get_at(j).is_some() {
                let ids = recorded_ids(&transports, &own, (false, j));
                let mut c = constructions.remove_at(j).unwrap();
                c.clear_expected_all();
                let mut k: usize = 0;
                while k < ids.len()
                    invariant
                        k <= ids@.len(),
                        c.spec_type() == cs0[j as int].payload->Occupied_0.spec_type(),
                        c.spec_pos() == cs0[j as int].payload->Occupied_0.spec_pos(),
                        c.spec_ingredients() == cs0[j as int].payload->Occupied_0.spec_ingredients(),
                        c.spec_recipe() == cs0[j as int].payload->Occupied_0.spec_recipe(),
                        c.spec_canceling() == cs0[j as int].payload->Occupied_0.spec_canceling(),
                        c.spec_progress() == cs0[j as int].payload->Occupied_0.spec_progress(),
                        forall|x: TransportId| #[trigger] c.expected().contains(x) <==> ids@.take(k as int).contains(x),
                    decreases ids@.len() - k,
                {
                    let ghost before = c.expected();
                    c.insert_expected_transports(ids[k]);
                    proof {
                        let t0 = ids@.take(k as int);
                        let t1 = ids@.take(k + 1);
                        assert(t1 =~= t0.push(ids@[k as int]));
                        assert forall|x: TransportId| #[trigger] c.expected().contains(x) <==> t1.contains(x) by {
                            if x == ids@[k as int] {
                                assert(t1[k as int] == x);
                            }
                            if t0.contains(x) {
                                let m = choose|m: int| 0 <= m < t0.len() && t0[m] == x;
                                assert(t1[m] == x);
                            }
                            if t1.contains(x) {
                                let m = choose|m: int| 0 <= m < t1.len() && t1[m] == x;
                                if m < k {
                                    assert(t0[m] == x);
                                }
                            }
                        }
                    }
                    k = k + 1;
                }
                proof {
                    assert(ids@.take(k as int) =~= ids@);
                    assert forall|id: TransportId| #[trigger] c.expected().contains(id) <==> expected_by_site(bs0, cs0, ts0, id, j as int) by {
                        lemma_site_record(bs0, cs0, ts0, own@, id, j);
                    }
                }
                constructions.put_at(j, c);
            }
            j = j + 1;
        }
        proof {
            assert forall|m: int| 0 <= m < nb && #[trigger] buildings.slots()[m].payload is Occupied implies occupant(
                buildings.slots()[m],
            ).inventory.wf() && crate::building::pos_in_range(occupant(buildings.slots()[m]).pos) by {
                assert(building_restored(bs0, ts0, m, bs0[m], buildings.slots()[m]));
            }
        }
        self.buildings = buildings;
        self.crews = crews;
        self.global_tasks = global_tasks;
        self.global_time = global_time;
        self.transports = transports;
        self.constructions = constructions;
    }
}

} // verus!
