//! Planning conveyors: a preview of a belt route, staged conveyors, splitters and mergers,
//! and their commitment as construction sites.
use vstd::prelude::*;

use crate::construction::{Construction, ConstructionType};
use crate::conveyor::{conv_from, conv_to, Conveyor};
use crate::direction::{dir_from_vec, dir_reverse, dir_vec, Direction};
use crate::entity::{lemma_insert_keeps_insertable, slots_after_insert, slots_can_insert, EntityEntry, EntitySet};
use crate::game::AsteroidColoniesGame;
use crate::tile::Tiles;
use crate::transport::pos_eq;
use crate::Pos;

verus! {

/// The conveyor planned at `p`: the last entry for it, if any.
pub open spec fn plan_get(v: Seq<(Pos, Conveyor)>, p: Pos) -> Option<Conveyor>
    decreases v.len(),
{
    if v.len() == 0 {
        None
    } else if v.last().0 == p {
        Some(v.last().1)
    } else {
        plan_get(v.drop_last(), p)
    }
}

/// The test for an entry of another position than `p`.
pub open spec fn other_pos(p: Pos) -> spec_fn((Pos, Conveyor)) -> bool {
    |e: (Pos, Conveyor)| e.0 != p
}

/// A plan with the entry for `p` set to `c`: any earlier entry for `p` goes, and the new one
/// comes last.
pub open spec fn plan_set(v: Seq<(Pos, Conveyor)>, p: Pos, c: Conveyor) -> Seq<(Pos, Conveyor)> {
    v.filter(other_pos(p)).push((p, c))
}

/// A plan with the entries of `es` set one after the other.
pub open spec fn plan_set_all(v: Seq<(Pos, Conveyor)>, es: Seq<(Pos, Conveyor)>) -> Seq<(Pos, Conveyor)>
    decreases es.len(),
{
    if es.len() == 0 {
        v
    } else {
        let w = plan_set_all(v, es.drop_last());
        plan_set(w, es.last().0, es.last().1)
    }
}

/// No two entries of the plan are for the same position.
pub open spec fn plan_unique(v: Seq<(Pos, Conveyor)>) -> bool {
    forall|i: int, j: int| 0 <= i < j < v.len() ==> v[i].0 != v[j].0
}

/// The test for an entry whose position the preview `preview` leaves free.
pub open spec fn not_previewed(preview: Seq<(Pos, Conveyor)>) -> spec_fn((Pos, Conveyor)) -> bool {
    |e: (Pos, Conveyor)| plan_get(preview, e.0) is None
}

/// The conveyor planned at `p`, if any.
fn plan_lookup(v: &Vec<(Pos, Conveyor)>, p: Pos) -> (r: Option<Conveyor>)
    ensures
        r == plan_get(v@, p),
{
    let mut i: usize = v.len();
    proof {
        assert(v@.take(i as int) =~= v@);
    }
    while i > 0
        invariant
            i <= v@.len(),
            plan_get(v@, p) == plan_get(v@.take(i as int), p),
        decreases i,
    {
        proof {
            assert(v@.take(i as int).drop_last() =~= v@.take(i - 1));
        }
        if pos_eq(v[i - 1].0, p) {
            return Some(v[i - 1].1);
        }
        i = i - 1;
    }
    None
}

/// The conveyor planned at `p`, or no conveyor.
fn plan_or_empty(v: &Vec<(Pos, Conveyor)>, p: Pos) -> (r: Conveyor)
    ensures
        r == (match plan_get(v@, p) {
            Some(c) => c,
            None => Conveyor::Empty,
        }),
{
    match plan_lookup(v, p) {
        Some(c) => c,
        None => Conveyor::Empty,
    }
}

/// Sets the entry for `p` to `c`.
fn plan_insert(v: &mut Vec<(Pos, Conveyor)>, p: Pos, c: Conveyor)
    ensures
        final(v)@ == plan_set(old(v)@, p, c),
        plan_unique(old(v)@) ==> plan_unique(final(v)@),
{
    let ghost f = other_pos(p);
    let mut out: Vec<(Pos, Conveyor)> = Vec::new();
    let mut i: usize = 0;
    while i < v.len()
        invariant
            i <= v@.len(),
            v@ == old(v)@,
            f == other_pos(p),
            out@ == v@.take(i as int).filter(f),
        decreases v@.len() - i,
    {
        proof {
            assert(v@.take(i + 1) =~= v@.take(i as int).push(v@[i as int]));
            v@.take(i as int).lemma_filter_push(v@[i as int], f);
        }
        if !pos_eq(v[i].0, p) {
            out.push(v[i]);
        }
        i = i + 1;
    }
    proof {
        assert(v@.take(i as int) =~= v@);
    }
    out.push((p, c));
    proof {
        let w = old(v)@;
        let fl = w.filter(f);
        if plan_unique(w) {
            assert forall|a: int, b: int| 0 <= a < b < out@.len() implies out@[a].0 != out@[b].0 by {
                if b == out@.len() - 1 {
                    w.lemma_filter_pred(f, a);
                    assert(out@[a] == fl[a]);
                } else {
                    lemma_filter_subseq_unique(w, f, a, b);
                }
            }
        }
    }
    *v = out;
}

/// The filter of a plan keeps distinct positions distinct.
proof fn lemma_filter_subseq_unique(w: Seq<(Pos, Conveyor)>, f: spec_fn((Pos, Conveyor)) -> bool, a: int, b: int)
    requires
        plan_unique(w),
        0 <= a < b < w.filter(f).len(),
    ensures
        w.filter(f)[a].0 != w.filter(f)[b].0,
    decreases w.len(),
{
    let fl = w.filter(f);
    if w.len() > 0 {
        let d = w.drop_last();
        d.lemma_filter_push(w.last(), f);
        assert(d.push(w.last()) =~= w);
        assert forall|i: int, j: int| 0 <= i < j < d.len() implies d[i].0 != d[j].0 by {
            assert(d[i] == w[i] && d[j] == w[j]);
        }
        if f(w.last()) && b == fl.len() - 1 {
            // the last entry is unique among all the others
            assert(fl[a] == d.filter(f)[a]);
            assert(d.filter(f).contains(fl[a]));
            d.lemma_filter_contains_rev(f, fl[a]);
            let m = choose|m: int| 0 <= m < d.len() && d[m] == fl[a];
            assert(w[m] == d[m]);
            assert(w[w.len() - 1] == w.last());
        } else {
            lemma_filter_subseq_unique(d, f, a, b);
        }
    }
}

/// What a splitter planned on a tile is: it takes the input of the tile's conveyor, or of the
/// staged one, or comes from the left.
pub open spec fn splitter_for(tile: Conveyor, staged: Conveyor) -> Conveyor {
    match tile {
        Conveyor::One(from, _) => Conveyor::Splitter(from),
        Conveyor::Two((from1, _), _) => Conveyor::Splitter(from1),
        _ => match staged {
            Conveyor::One(from, _) => Conveyor::Splitter(from),
            Conveyor::Two((from1, _), _) => Conveyor::Splitter(from1),
            _ => Conveyor::Splitter(Direction::Left),
        },
    }
}

/// What a merger planned on a tile is: it keeps the output of the tile's conveyor, or of the
/// staged one, or goes to the right.
pub open spec fn merger_for(tile: Conveyor, staged: Conveyor) -> Conveyor {
    match tile {
        Conveyor::One(_, to) => Conveyor::Merger(to),
        Conveyor::Two((_, to1), _) => Conveyor::Merger(to1),
        _ => match staged {
            Conveyor::One(_, to) => Conveyor::Merger(to),
            Conveyor::Two((_, to1), _) => Conveyor::Merger(to1),
            _ => Conveyor::Merger(Direction::Right),
        },
    }
}

/// The conveyor staged at `p`, or no conveyor.
pub open spec fn staged_or_empty(v: Seq<(Pos, Conveyor)>, p: Pos) -> Conveyor {
    match plan_get(v, p) {
        Some(c) => c,
        None => Conveyor::Empty,
    }
}

impl AsteroidColoniesGame {
    /// Stages a splitter at `[ix0, iy0]` (see `splitter_for`).
    pub fn build_splitter(&mut self, ix0: i32, iy0: i32)
        requires
            old(self).tiles.wf(),
        ensures
            final(self).conveyor_staged@ == plan_set(
                old(self).conveyor_staged@,
                [ix0, iy0],
                splitter_for(
                    old(self).tiles.spec_tile_at([ix0, iy0]).conveyor,
                    staged_or_empty(old(self).conveyor_staged@, [ix0, iy0]),
                ),
            ),
            plan_unique(old(self).conveyor_staged@) ==> plan_unique(final(self).conveyor_staged@),
            final(self).conveyor_preview == old(self).conveyor_preview,
            final(self).tiles == old(self).tiles,
            final(self).constructions == old(self).constructions,
    {
        let pos0: Pos = [ix0, iy0];
        let tile = self.tiles.index(pos0).conveyor;
        let staged = plan_or_empty(&self.conveyor_staged, pos0);
        let c = match tile {
            Conveyor::One(from, _) => Conveyor::Splitter(from),
            Conveyor::Two((from1, _), _) => Conveyor::Splitter(from1),
            _ => match staged {
                Conveyor::One(from, _) => Conveyor::Splitter(from),
                Conveyor::Two((from1, _), _) => Conveyor::Splitter(from1),
                _ => Conveyor::Splitter(Direction::Left),
            },
        };
        plan_insert(&mut self.conveyor_staged, pos0, c);
    }

    /// Stages a merger at `[ix0, iy0]` (see `merger_for`).
    pub fn build_merger(&mut self, ix0: i32, iy0: i32)
        requires
            old(self).tiles.wf(),
        ensures
            final(self).conveyor_staged@ == plan_set(
                old(self).conveyor_staged@,
                [ix0, iy0],
                merger_for(
                    old(self).tiles.spec_tile_at([ix0, iy0]).conveyor,
                    staged_or_empty(old(self).conveyor_staged@, [ix0, iy0]),
                ),
            ),
            plan_unique(old(self).conveyor_staged@) ==> plan_unique(final(self).conveyor_staged@),
            final(self).conveyor_preview == old(self).conveyor_preview,
            final(self).tiles == old(self).tiles,
            final(self).constructions == old(self).constructions,
    {
        let pos0: Pos = [ix0, iy0];
        let tile = self.tiles.index(pos0).conveyor;
        let staged = plan_or_empty(&self.conveyor_staged, pos0);
        let c = match tile {
            Conveyor::One(_, to) => Conveyor::Merger(to),
            Conveyor::Two((_, to1), _) => Conveyor::Merger(to1),
            _ => match staged {
                Conveyor::One(_, to) => Conveyor::Merger(to),
                Conveyor::Two((_, to1), _) => Conveyor::Merger(to1),
                _ => Conveyor::Merger(Direction::Right),
            },
        };
        plan_insert(&mut self.conveyor_staged, pos0, c);
    }

    /// Drops the preview, and the staged conveyors too unless only the preview is canceled.
    pub fn cancel_build_conveyor(&mut self, preview: bool)
        ensures
            final(self).conveyor_preview@.len() == 0,
            final(self).conveyor_staged@ == (if preview {
                old(self).conveyor_staged@
            } else {
                Seq::<(Pos, Conveyor)>::empty()
            }),
            final(self).tiles == old(self).tiles,
            final(self).constructions == old(self).constructions,
    {
        if !preview {
            self.conveyor_staged.clear();
        }
        self.conveyor_preview.clear();
    }

    /// Turns the staged conveyors into construction sites, in staging order, and returns
    /// sites like them; the preview and the staged conveyors are dropped.
    pub fn commit_build_conveyor(&mut self) -> (r: Vec<Construction>)
        requires
            slots_can_insert(old(self).constructions.slots()),
            old(self).constructions.slots().len() + old(self).conveyor_staged@.len() < u32::MAX,
        ensures
            r@.len() == old(self).conveyor_staged@.len(),
            forall|k: int|
                0 <= k < r@.len() ==> #[trigger] r@[k].spec_type() == ConstructionType::Conveyor(
                    old(self).conveyor_staged@[k].1,
                ) && r@[k].spec_pos() == old(self).conveyor_staged@[k].0 && !r@[k].spec_canceling()
                    && r@[k].spec_progress() == 0,
            exists|added: Seq<Construction>|
                added.len() == old(self).conveyor_staged@.len() && (forall|k: int|
                    0 <= k < added.len() ==> #[trigger] added[k].spec_type() == ConstructionType::Conveyor(
                        old(self).conveyor_staged@[k].1,
                    ) && added[k].spec_pos() == old(self).conveyor_staged@[k].0 && !added[k].spec_canceling()
                        && added[k].spec_progress() == 0) && #[trigger] slots_inserted(
                    old(self).constructions.slots(),
                    added,
                ) == final(self).constructions.slots(),
            final(self).conveyor_staged@.len() == 0,
            final(self).conveyor_preview@.len() == 0,
            final(self).constructions.free_head() == old(self).constructions.free_head(),
            final(self).tiles == old(self).tiles,
    {
        let ghost s0 = self.constructions.slots();
        let ghost mut added: Seq<Construction> = Seq::empty();
        let mut out: Vec<Construction> = Vec::new();
        let mut i: usize = 0;
        while i < self.conveyor_staged.len()
            invariant
                i <= self.conveyor_staged@.len(),
                self.conveyor_staged == old(self).conveyor_staged,
                self.tiles == old(self).tiles,
                s0 == old(self).constructions.slots(),
                self.constructions.free_head() == old(self).constructions.free_head(),
                s0.len() + self.conveyor_staged@.len() < u32::MAX,
                slots_can_insert(s0),
                added.len() == i,
                out@.len() == i,
                self.constructions.slots() == slots_inserted(s0, added),
                slots_can_insert(self.constructions.slots()),
                self.constructions.slots().len() <= s0.len() + i,
                forall|k: int|
                    0 <= k < i ==> #[trigger] added[k].spec_type() == ConstructionType::Conveyor(self.conveyor_staged@[k].1)
                        && added[k].spec_pos() == self.conveyor_staged@[k].0 && !added[k].spec_canceling()
                        && added[k].spec_progress() == 0,
                forall|k: int|
                    0 <= k < i ==> #[trigger] out@[k].spec_type() == ConstructionType::Conveyor(self.conveyor_staged@[k].1)
                        && out@[k].spec_pos() == self.conveyor_staged@[k].0 && !out@[k].spec_canceling()
                        && out@[k].spec_progress() == 0,
            decreases self.conveyor_staged@.len() - i,
        {
            let (pos, conv) = self.conveyor_staged[i];
            let site = Construction::new_conveyor(pos, conv, false);
            let ghost before = self.constructions.slots();
            self.constructions.insert(site);
            out.push(Construction::new_conveyor(pos, conv, false));
            proof {
                lemma_insert_keeps_insertable(before, site);
                assert(added.push(site).drop_last() =~= added);
                added = added.push(site);
            }
            i = i + 1;
        }
        self.conveyor_preview.clear();
        self.conveyor_staged.clear();
        out
    }
}

/// The slots after inserting the entities one after the other.
pub open spec fn slots_inserted<T>(s: Seq<EntityEntry<T>>, vals: Seq<T>) -> Seq<EntityEntry<T>>
    decreases vals.len(),
{
    if vals.len() == 0 {
        s
    } else {
        slots_after_insert(slots_inserted(s, vals.drop_last()), vals.last())
    }
}


/// The tiles of a belt route from `[ix0, iy0]` to `[ix1, iy1]`: along column `ix0` to row
/// `iy1`, then along row `iy1` to column `ix1`. The corner tile comes twice.
pub open spec fn route(ix0: i32, iy0: i32, ix1: i32, iy1: i32) -> Seq<Pos> {
    let ny = if iy1 >= iy0 { iy1 - iy0 + 1 } else { iy0 - iy1 + 1 };
    let nx = if ix1 >= ix0 { ix1 - ix0 + 1 } else { ix0 - ix1 + 1 };
    Seq::new(ny as nat, |k: int| [ix0, (if iy1 >= iy0 { iy0 + k } else { iy0 - k }) as i32]) + Seq::new(
        nx as nat,
        |k: int| [(if ix1 >= ix0 { ix0 + k } else { ix0 - k }) as i32, iy1],
    )
}

/// A belt from `from` to `to` is vertical.
pub open spec fn vertical(from: Direction, to: Direction) -> bool {
    (from == Direction::Up && to == Direction::Down) || (from == Direction::Down && to == Direction::Up)
}

/// A belt from `from` to `to` is horizontal.
pub open spec fn horizontal(from: Direction, to: Direction) -> bool {
    (from == Direction::Left && to == Direction::Right) || (from == Direction::Right && to == Direction::Left)
}

/// A straight belt `c` crossed by a belt from `from` to `to` at right angles becomes a
/// crossing; None for any other pair.
pub open spec fn crossing(c: Conveyor, from: Direction, to: Direction) -> Option<Conveyor> {
    match c {
        Conveyor::One(a, b) => if ((a == Direction::Left && b == Direction::Right) || (a == Direction::Right && b
            == Direction::Left)) && vertical(from, to) {
            Some(Conveyor::Two((a, b), (from, to)))
        } else if ((a == Direction::Up && b == Direction::Down) || (a == Direction::Down && b == Direction::Up))
            && horizontal(from, to) {
            Some(Conveyor::Two((a, b), (from, to)))
        } else {
            None
        },
        _ => None,
    }
}

/// The conveyor a route lays on a tile holding `tile` with `staged` planned on it: a crossing
/// over the tile's belt, else over the staged belt, else a plain belt.
pub open spec fn laid_conveyor(tile: Conveyor, staged: Conveyor, from: Direction, to: Direction) -> Conveyor {
    match crossing(tile, from, to) {
        Some(c) => c,
        None => match crossing(staged, from, to) {
            Some(c) => c,
            None => Conveyor::One(from, to),
        },
    }
}

/// Directions `a` and `b` point opposite ways.
pub open spec fn opposite(a: Direction, b: Direction) -> bool {
    dir_vec(a).0 + dir_vec(b).0 == 0 && dir_vec(a).1 + dir_vec(b).1 == 0
}

/// Directions `a` and `b` are at right angles.
pub open spec fn at_right_angles(a: Direction, b: Direction) -> bool {
    dir_vec(a).0 * dir_vec(b).0 + dir_vec(a).1 * dir_vec(b).1 == 0
}

/// `c` is a straight belt that a straight belt from `from` to `to` crosses at right angles.
pub open spec fn crossed_at_right_angles(c: Conveyor, from: Direction, to: Direction) -> bool {
    c matches Conveyor::One(a, b) && opposite(a, b) && opposite(from, to) && at_right_angles(a, from)
}

/// What a route lays on a tile, by the geometry of the belts: where its straight belt crosses
/// the tile's straight belt at right angles, a two-level crossing keeping the tile's belt
/// below; else, where it crosses the belt staged there so, a crossing keeping the staged belt;
/// else a plain belt from `from` to `to`. Horizontal and vertical belts are crossed alike.
pub proof fn lemma_laid_conveyor(tile: Conveyor, staged: Conveyor, from: Direction, to: Direction)
    ensures
        crossed_at_right_angles(tile, from, to) ==> (tile matches Conveyor::One(a, b) ==> laid_conveyor(tile, staged, from, to)
            == Conveyor::Two((a, b), (from, to))),
        !crossed_at_right_angles(tile, from, to) && crossed_at_right_angles(staged, from, to) ==> (staged matches Conveyor::One(
            a,
            b,
        ) ==> laid_conveyor(tile, staged, from, to) == Conveyor::Two((a, b), (from, to))),
        !crossed_at_right_angles(tile, from, to) && !crossed_at_right_angles(staged, from, to) ==> laid_conveyor(
            tile,
            staged,
            from,
            to,
        ) == Conveyor::One(from, to),
{
}

/// The input direction of the conveyor planned or laid at `p`, if any: the staged one first.
pub open spec fn existing_from(tiles: Tiles, staged: Seq<(Pos, Conveyor)>, p: Pos) -> Option<Direction> {
    match conv_from(staged_or_empty(staged, p)) {
        Some(f) => Some(f),
        None => conv_from(tiles.spec_tile_at(p).conveyor),
    }
}

/// The entries the first `k` steps of a route lay, with the input direction for the next
/// step: a step between equal tiles lays nothing; any other lays a belt on its first tile,
/// from the previous step's input (or straight on) towards the second tile.
pub open spec fn plan_steps(
    tiles: Tiles,
    staged: Seq<(Pos, Conveyor)>,
    r: Seq<Pos>,
    k: nat,
    first_from: Option<Direction>,
) -> (Seq<(Pos, Conveyor)>, Option<Direction>)
    decreases k,
{
    if k == 0 {
        (Seq::empty(), first_from)
    } else {
        let prev = plan_steps(tiles, staged, r, (k - 1) as nat, first_from);
        let p0 = r[k - 1];
        let p1 = r[k as int];
        match dir_from_vec(p1[0] - p0[0], p1[1] - p0[1]) {
            None => prev,
            Some(to) => {
                let from = match prev.1 {
                    Some(f) => f,
                    None => dir_reverse(to),
                };
                (
                    prev.0.push((p0, laid_conveyor(tiles.spec_tile_at(p0).conveyor, staged_or_empty(staged, p0), from, to))),
                    Some(dir_reverse(to)),
                )
            },
        }
    }
}

/// The entries a route lays: its steps, then a belt on its last tile that keeps the output
/// of what is planned or laid there (or goes straight on).
pub open spec fn route_plan(tiles: Tiles, staged: Seq<(Pos, Conveyor)>, r: Seq<Pos>) -> Seq<(Pos, Conveyor)> {
    let steps = plan_steps(tiles, staged, r, (r.len() - 1) as nat, existing_from(tiles, staged, r[0]));
    match steps.1 {
        Some(f) => {
            let p = r.last();
            let to = match conv_to(staged_or_empty(staged, p)) {
                Some(t) => t,
                None => match conv_to(tiles.spec_tile_at(p).conveyor) {
                    Some(t) => t,
                    None => dir_reverse(f),
                },
            };
            steps.0.push((p, laid_conveyor(tiles.spec_tile_at(p).conveyor, staged_or_empty(staged, p), f, to)))
        },
        None => steps.0,
    }
}

fn crossing_of(c: Conveyor, from: Direction, to: Direction) -> (r: Option<Conveyor>)
    ensures
        r == crossing(c, from, to),
{
    let vert = (from == Direction::Up && to == Direction::Down) || (from == Direction::Down && to == Direction::Up);
    let horiz = (from == Direction::Left && to == Direction::Right) || (from == Direction::Right && to
        == Direction::Left);
    match c {
        Conveyor::One(a, b) => {
            if ((a == Direction::Left && b == Direction::Right) || (a == Direction::Right && b == Direction::Left)) && vert {
                Some(Conveyor::Two((a, b), (from, to)))
            } else if ((a == Direction::Up && b == Direction::Down) || (a == Direction::Down && b == Direction::Up))
                && horiz {
                Some(Conveyor::Two((a, b), (from, to)))
            } else {
                None
            }
        },
        _ => None,
    }
}

fn laid_conveyor_of(tile: Conveyor, staged: Conveyor, from: Direction, to: Direction) -> (r: Conveyor)
    ensures
        r == laid_conveyor(tile, staged, from, to),
{
    match crossing_of(tile, from, to) {
        Some(c) => c,
        None => match crossing_of(staged, from, to) {
            Some(c) => c,
            None => Conveyor::One(from, to),
        },
    }
}

/// The tiles of the route, built one by one.
fn route_of(ix0: i32, iy0: i32, ix1: i32, iy1: i32) -> (r: Vec<Pos>)
    requires
        (if iy1 >= iy0 { iy1 - iy0 } else { iy0 - iy1 }) + (if ix1 >= ix0 { ix1 - ix0 } else { ix0 - ix1 }) + 2
            <= usize::MAX,
    ensures
        r@ == route(ix0, iy0, ix1, iy1),
{
    let ghost col = Seq::new(
        (if iy1 >= iy0 { iy1 - iy0 + 1 } else { iy0 - iy1 + 1 }) as nat,
        |k: int| [ix0, (if iy1 >= iy0 { iy0 + k } else { iy0 - k }) as i32],
    );
    let ghost row = Seq::new(
        (if ix1 >= ix0 { ix1 - ix0 + 1 } else { ix0 - ix1 + 1 }) as nat,
        |k: int| [(if ix1 >= ix0 { ix0 + k } else { ix0 - k }) as i32, iy1],
    );
    let dy: i64 = if iy1 >= iy0 { iy1 as i64 - iy0 as i64 } else { iy0 as i64 - iy1 as i64 };
    let dx: i64 = if ix1 >= ix0 { ix1 as i64 - ix0 as i64 } else { ix0 as i64 - ix1 as i64 };
    let ny = (dy + 1) as usize;
    let nx = (dx + 1) as usize;
    let mut out: Vec<Pos> = Vec::new();
    let mut k: usize = 0;
    while k < ny
        invariant
            k <= ny,
            ny == col.len(),
            col == Seq::new(
                (if iy1 >= iy0 { iy1 - iy0 + 1 } else { iy0 - iy1 + 1 }) as nat,
                |k: int| [ix0, (if iy1 >= iy0 { iy0 + k } else { iy0 - k }) as i32],
            ),
            out@ == col.take(k as int),
        decreases ny - k,
    {
        let y: i32 = if iy1 >= iy0 { (iy0 as i64 + k as i64) as i32 } else { (iy0 as i64 - k as i64) as i32 };
        out.push([ix0, y]);
        proof {
            assert(out@ =~= col.take(k + 1));
        }
        k = k + 1;
    }
    let mut j: usize = 0;
    while j < nx
        invariant
            j <= nx,
            nx == row.len(),
            ny == col.len(),
            col.len() + row.len() <= usize::MAX,
            row == Seq::new(
                (if ix1 >= ix0 { ix1 - ix0 + 1 } else { ix0 - ix1 + 1 }) as nat,
                |k: int| [(if ix1 >= ix0 { ix0 + k } else { ix0 - k }) as i32, iy1],
            ),
            out@ == col + row.take(j as int),
        decreases nx - j,
    {
        let x: i32 = if ix1 >= ix0 { (ix0 as i64 + j as i64) as i32 } else { (ix0 as i64 - j as i64) as i32 };
        out.push([x, iy1]);
        proof {
            assert(out@ =~= col + row.take(j + 1));
        }
        j = j + 1;
    }
    proof {
        assert(col.take(ny as int) =~= col);
        assert(row.take(nx as int) =~= row);
    }
    out
}

/// One step of a route, from `p0` to `p1`, given the input direction `prev_from` of the
/// previous step: the entry it lays, if any, and the input direction for the next step.
fn plan_step(
    tiles: &Tiles,
    staged: &Vec<(Pos, Conveyor)>,
    p0: Pos,
    p1: Pos,
    prev_from: Option<Direction>,
) -> (r: (Option<(Pos, Conveyor)>, Option<Direction>))
    requires
        tiles.wf(),
        -1 <= p1[0] - p0[0] <= 1,
        -1 <= p1[1] - p0[1] <= 1,
    ensures
        match dir_from_vec(p1[0] - p0[0], p1[1] - p0[1]) {
            None => r == (None::<(Pos, Conveyor)>, prev_from),
            Some(to) => {
                let from = match prev_from {
                    Some(f) => f,
                    None => dir_reverse(to),
                };
                r == (
                    Some((p0, laid_conveyor(tiles.spec_tile_at(p0).conveyor, staged_or_empty(staged@, p0), from, to))),
                    Some(dir_reverse(to)),
                )
            },
        },
{
    match Direction::from_vec([p1[0] - p0[0], p1[1] - p0[1]]) {
        Some(to) => {
            let from = match prev_from {
                Some(f) => f,
                None => to.reverse(),
            };
            let tile = tiles.index(p0).conveyor;
            let st = plan_or_empty(staged, p0);
            (Some((p0, laid_conveyor_of(tile, st, from, to))), Some(to.reverse()))
        },
        None => (None, prev_from),
    }
}

/// Neighbouring tiles of a route are at most one step apart in each coordinate.
proof fn lemma_route_steps(ix0: i32, iy0: i32, ix1: i32, iy1: i32, i: int)
    requires
        0 <= i,
        i + 1 < route(ix0, iy0, ix1, iy1).len(),
    ensures
        -1 <= route(ix0, iy0, ix1, iy1)[i + 1][0] - route(ix0, iy0, ix1, iy1)[i][0] <= 1,
        -1 <= route(ix0, iy0, ix1, iy1)[i + 1][1] - route(ix0, iy0, ix1, iy1)[i][1] <= 1,
{
}

impl AsteroidColoniesGame {
    /// Plans a belt route from `[ix0, iy0]` to `[ix1, iy1]` (see `route` and `route_plan`):
    /// the preview becomes the route's entries; unless it is only a preview, the entries are
    /// then staged and the preview emptied.
    pub fn preview_build_conveyor(&mut self, ix0: i32, iy0: i32, ix1: i32, iy1: i32, preview: bool) -> (r: Result<(), String>)
        requires
            old(self).tiles.wf(),
            (if iy1 >= iy0 { iy1 - iy0 } else { iy0 - iy1 }) + (if ix1 >= ix0 { ix1 - ix0 } else { ix0 - ix1 }) + 2
                <= usize::MAX,
        ensures
            r is Ok,
            ({
                let plan = plan_set_all(
                    Seq::empty(),
                    route_plan(old(self).tiles, old(self).conveyor_staged@, route(ix0, iy0, ix1, iy1)),
                );
                if preview {
                    &&& final(self).conveyor_preview@ == plan
                    &&& final(self).conveyor_staged@ == old(self).conveyor_staged@
                } else {
                    &&& final(self).conveyor_preview@.len() == 0
                    &&& final(self).conveyor_staged@ == plan_set_all(old(self).conveyor_staged@, plan)
                }
            }),
            final(self).tiles == old(self).tiles,
            final(self).constructions == old(self).constructions,
            final(self).buildings == old(self).buildings,
    {
        let ghost staged0 = self.conveyor_staged@;
        let ghost tiles0 = self.tiles;
        self.conveyor_preview.clear();
        let convs = route_of(ix0, iy0, ix1, iy1);
        let ghost r = convs@;
        let pos0: Pos = [ix0, iy0];
        let tile0 = self.tiles.index(pos0).conveyor;
        let staged_first = plan_or_empty(&self.conveyor_staged, pos0);
        let first_from = match staged_first.from() {
            Some(f) => Some(f),
            None => tile0.from(),
        };
        let ghost ff = first_from;
        let mut prev_from = first_from;
        let ghost mut laid: Seq<(Pos, Conveyor)> = Seq::empty();
        proof {
            assert(r[0] == pos0);
        }
        let mut i: usize = 0;
        while i < convs.len() - 1
            invariant
                convs@ == r,
                r == route(ix0, iy0, ix1, iy1),
                r.len() >= 2,
                i + 1 <= r.len(),
                self.tiles == tiles0,
                tiles0.wf(),
                self.conveyor_staged@ == staged0,
                ff == existing_from(tiles0, staged0, r[0]),
                (laid, prev_from) == plan_steps(tiles0, staged0, r, i as nat, ff),
                self.conveyor_preview@ == plan_set_all(Seq::empty(), laid),
                self.constructions == old(self).constructions,
                self.buildings == old(self).buildings,
            decreases r.len() - i,
        {
            let p0 = convs[i];
            let p1 = convs[i + 1];
            proof {
                lemma_route_steps(ix0, iy0, ix1, iy1, i as int);
            }
            let (entry, next_from) = plan_step(&self.tiles, &self.conveyor_staged, p0, p1, prev_from);
            prev_from = next_from;
            match entry {
                Some((p, c)) => {
                    plan_insert(&mut self.conveyor_preview, p, c);
                    proof {
                        let before = laid;
                        laid = laid.push((p, c));
                        assert(laid.drop_last() =~= before);
                    }
                },
                None => {},
            }
            i = i + 1;
        }
        match prev_from {
            Some(f) => {
                let p = convs[convs.len() - 1];
                let tile = self.tiles.index(p).conveyor;
                let staged = plan_or_empty(&self.conveyor_staged, p);
                let to = match staged.to() {
                    Some(t) => t,
                    None => match tile.to() {
                        Some(t) => t,
                        None => f.reverse(),
                    },
                };
                let conv = laid_conveyor_of(tile, staged, f, to);
                plan_insert(&mut self.conveyor_preview, p, conv);
                proof {
                    let full = laid.push((p, conv));
                    assert(full.drop_last() =~= laid);
                    assert(full == route_plan(tiles0, staged0, r));
                }
            },
            None => {},
        }
        if !preview {
            let ghost entries = self.conveyor_preview@;
            let mut k: usize = 0;
            while k < self.conveyor_preview.len()
                invariant
                    k <= entries.len(),
                    self.conveyor_preview@ == entries,
                    self.conveyor_staged@ == plan_set_all(staged0, entries.take(k as int)),
                    self.tiles == tiles0,
                    self.constructions == old(self).constructions,
                    self.buildings == old(self).buildings,
                decreases entries.len() - k,
            {
                let (p, c) = self.conveyor_preview[k];
                plan_insert(&mut self.conveyor_staged, p, c);
                proof {
                    assert(entries.take(k + 1).drop_last() =~= entries.take(k as int));
                }
                k = k + 1;
            }
            proof {
                assert(entries.take(k as int) =~= entries);
            }
            self.conveyor_preview.clear();
        }
        Ok(())
    }
}

impl AsteroidColoniesGame {
    /// The planned conveyors to show: the staged ones at positions that the preview leaves
    /// free, in their order, then the preview.
    pub fn iter_conveyor_plan(&self) -> (r: Vec<(Pos, Conveyor)>)
        ensures
            r@ == self.conveyor_staged@.filter(not_previewed(self.conveyor_preview@)) + self.conveyor_preview@,
    {
        let ghost f = not_previewed(self.conveyor_preview@);
        let staged = &self.conveyor_staged;
        let mut out: Vec<(Pos, Conveyor)> = Vec::new();
        let mut i: usize = 0;
        while i < staged.len()
            invariant
                i <= staged@.len(),
                staged == &self.conveyor_staged,
                f == not_previewed(self.conveyor_preview@),
                out@ == staged@.take(i as int).filter(f),
            decreases staged@.len() - i,
        {
            proof {
                assert(staged@.take(i + 1) =~= staged@.take(i as int).push(staged@[i as int]));
                staged@.take(i as int).lemma_filter_push(staged@[i as int], f);
            }
            if plan_lookup(&self.conveyor_preview, staged[i].0).is_none() {
                out.push(staged[i]);
            }
            i = i + 1;
        }
        proof {
            assert(staged@.take(i as int) =~= staged@);
        }
        let ghost head = out@;
        let mut j: usize = 0;
        while j < self.conveyor_preview.len()
            invariant
                j <= self.conveyor_preview@.len(),
                out@ == head + self.conveyor_preview@.take(j as int),
            decreases self.conveyor_preview@.len() - j,
        {
            out.push(self.conveyor_preview[j]);
            proof {
                assert(self.conveyor_preview@.take(j + 1) =~= self.conveyor_preview@.take(j as int).push(
                    self.conveyor_preview@[j as int],
                ));
            }
            j = j + 1;
        }
        proof {
            assert(self.conveyor_preview@.take(j as int) =~= self.conveyor_preview@);
        }
        out
    }
}

} // verus!
