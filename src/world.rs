use vstd::prelude::*;

use crate::grid::{in_bounds, GridMap, IdGen};
use crate::types::{Coords, Id, Obj, ObjDetails, Team, UNIT_HEALTH};

verus! {

/// All objects of a world, in increasing order of id.
pub type ObjMap = Vec<Obj>;

pub open spec fn unit_healthy(o: Obj) -> bool {
    o.1 matches ObjDetails::Unit(u) ==> 1 <= u.health <= UNIT_HEALTH
}

pub open spec fn ids_increasing(objs: Seq<Obj>) -> bool {
    forall|i: int, j: int| 0 <= i < j < objs.len() ==> objs[i].0.id.0 < objs[j].0.id.0
}

pub open spec fn coords_distinct(objs: Seq<Obj>) -> bool {
    forall|i: int, j: int|
        0 <= i < objs.len() && 0 <= j < objs.len() && i != j ==> objs[i].0.coords
            != objs[j].0.coords
}

/// The objects of a world: ids increasing, at most one object per cell, all of
/// them on the grid, and every unit alive with at most full health.
pub open spec fn objs_wf(objs: Seq<Obj>, size: nat) -> bool {
    &&& ids_increasing(objs)
    &&& coords_distinct(objs)
    &&& forall|i: int| 0 <= i < objs.len() ==> in_bounds(#[trigger] objs[i].0.coords, size)
    &&& forall|i: int| 0 <= i < objs.len() ==> unit_healthy(#[trigger] objs[i])
}

/// The grid records exactly the cell and id of every object.
pub open spec fn grid_matches(grid: GridMap, objs: Seq<Obj>) -> bool {
    &&& grid.wf()
    &&& forall|i: int| 0 <= i < objs.len() ==> grid.at(#[trigger] objs[i].0.coords) == Some(objs[i].0.id)
    &&& forall|c: Coords| #[trigger] grid.at(c) is Some ==> exists|i: int| 0 <= i < objs.len() && objs[i].0.coords == c
}

pub open spec fn has_id(objs: Seq<Obj>, id: Id) -> bool {
    exists|i: int| 0 <= i < objs.len() && objs[i].0.id == id
}

/// Index of the object with id `id`, if there is one.
pub fn find_index(objs: &ObjMap, id: Id) -> (r: Option<usize>)
    ensures
        r matches Some(i) ==> i < objs@.len() && objs@[i as int].0.id == id,
        r is None ==> !has_id(objs@, id),
{
    let mut i: usize = 0;
    while i < objs.len()
        invariant
            i <= objs@.len(),
            forall|k: int| 0 <= k < i ==> objs@[k].0.id != id,
        decreases objs@.len() - i,
    {
        if objs[i].0.id == id {
            return Some(i);
        }
        i = i + 1;
    }
    None
}

/// The grid of side `size` that holds exactly the given objects.
pub fn create_grid_map(objs: &ObjMap, size: usize) -> (r: GridMap)
    requires
        size * size <= usize::MAX,
        size < usize::MAX,
        objs_wf(objs@, size as nat),
    ensures
        r.size == size,
        grid_matches(r, objs@),
{
    let mut grid = GridMap::empty(size);
    let mut i: usize = 0;
    while i < objs.len()
        invariant
            i <= objs@.len(),
            grid.wf(),
            grid.size == size,
            objs_wf(objs@, size as nat),
            forall|k: int| 0 <= k < i ==> grid.at(#[trigger] objs@[k].0.coords) == Some(objs@[k].0.id),
            forall|c: Coords| #[trigger] grid.at(c) is Some ==> exists|k: int| 0 <= k < i && objs@[k].0.coords == c,
        decreases objs@.len() - i,
    {
        let o = objs[i];
        let ghost before = grid;
        grid.set(o.0.coords, Some(o.0.id));
        proof {
            assert forall|k: int| 0 <= k < i + 1 implies grid.at(#[trigger] objs@[k].0.coords) == Some(
                objs@[k].0.id,
            ) by {
                if k < i {
                    assert(objs@[k].0.coords != objs@[i as int].0.coords);
                }
            }
            assert forall|c: Coords| #[trigger] grid.at(c) is Some implies exists|k: int|
                0 <= k < i + 1 && objs@[k].0.coords == c by {
                if c != o.0.coords {
                    assert(before.at(c) is Some);
                }
            }
        }
        i = i + 1;
    }
    grid
}

/// Lists, for each team of `all_teams`, the ids of its units in increasing order.
pub fn create_team_map(objs: &ObjMap, all_teams: &Vec<Team>) -> (r: Vec<(Team, Vec<Id>)>)
    ensures
        r@.len() == all_teams@.len(),
        forall|t: int|
            0 <= t < r@.len() ==> (#[trigger] r@[t]).0 == all_teams@[t] && r@[t].1@ == team_ids(
                objs@,
                all_teams@[t],
            ),
{
    let mut r: Vec<(Team, Vec<Id>)> = Vec::new();
    let mut t: usize = 0;
    while t < all_teams.len()
        invariant
            t <= all_teams@.len(),
            r@.len() == t,
            forall|k: int|
                0 <= k < t ==> (#[trigger] r@[k]).0 == all_teams@[k] && r@[k].1@ == team_ids(
                    objs@,
                    all_teams@[k],
                ),
        decreases all_teams@.len() - t,
    {
        let team = all_teams[t];
        let mut ids: Vec<Id> = Vec::new();
        let mut i: usize = 0;
        while i < objs.len()
            invariant
                i <= objs@.len(),
                ids@ == team_ids(objs@.subrange(0, i as int), team),
            decreases objs@.len() - i,
        {
            proof {
                assert(objs@.subrange(0, i as int + 1).drop_last() == objs@.subrange(0, i as int));
            }
            if let ObjDetails::Unit(u) = objs[i].1 {
                if u.team == team {
                    ids.push(objs[i].0.id);
                }
            }
            i = i + 1;
        }
        proof {
            assert(objs@.subrange(0, objs@.len() as int) == objs@);
        }
        r.push((team, ids));
        t = t + 1;
    }
    r
}

/// Ids of the units of `team`, in the order of `objs`.
pub open spec fn team_ids(objs: Seq<Obj>, team: Team) -> Seq<Id>
    decreases objs.len(),
{
    if objs.len() == 0 {
        Seq::empty()
    } else {
        let rest = team_ids(objs.drop_last(), team);
        let o = objs.last();
        if o.1 matches ObjDetails::Unit(u) && u.team == team {
            rest.push(o.0.id)
        } else {
            rest
        }
    }
}

} // verus!
