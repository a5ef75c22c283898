use vstd::prelude::*;

use crate::grid::{in_bounds, new_id, IdGen};
use crate::state::{coords_lt, mirror, sorted_coords, spawn_points_wf};
use crate::types::{BasicObj, Coords, MapType, Obj, ObjDetails, Terrain, TerrainType};
use crate::world::{objs_wf, ObjMap};

verus! {

/// Whether the map of kind `t` and side `size` has a wall on cell `c`.
pub open spec fn is_wall(t: MapType, size: nat, c: Coords) -> bool {
    match t {
        MapType::Rect => c.0 == 0 || c.0 == size - 1 || c.1 == 0 || c.1 == size - 1,
        MapType::Circle => {
            let h = (size / 2) as int;
            (h - c.0) * (h - c.0) + (h - c.1) * (h - c.1) >= h * h
        },
    }
}

pub open spec fn wall_at(t: MapType, size: nat, c: Coords) -> bool {
    in_bounds(c, size) && is_wall(t, size, c)
}

/// Rect: the ring just inside the border walls. Circle: open cells next to a wall.
pub open spec fn spawn_candidate(t: MapType, size: nat, c: Coords) -> bool {
    match t {
        MapType::Rect => 1 <= c.0 <= size - 2 && 1 <= c.1 <= size - 2 && (c.0 == 1 || c.0 == size - 2
            || c.1 == 1 || c.1 == size - 2),
        MapType::Circle => !is_wall(t, size, c) && (wall_at(t, size, Coords((c.0 + 1) as usize, c.1))
            || wall_at(t, size, Coords(c.0, (c.1 + 1) as usize)) || wall_at(
            t,
            size,
            Coords(if c.0 == 0 { 0 } else { (c.0 - 1) as usize }, c.1),
        ) || wall_at(t, size, Coords(c.0, if c.1 == 0 { 0 } else { (c.1 - 1) as usize }))),
    }
}

/// A spawn point of the map: a candidate whose distinct mirror is one too.
pub open spec fn is_spawn_point(t: MapType, size: nat, c: Coords) -> bool {
    &&& in_bounds(c, size)
    &&& spawn_candidate(t, size, c)
    &&& spawn_candidate(t, size, mirror(c, size))
    &&& mirror(c, size) != c
}

proof fn lemma_side_small(size: nat)
    requires
        size * size <= usize::MAX,
    ensures
        size <= 0x1_0000_0000,
{
    if size > 0x1_0000_0000 {
        assert(size * size > 0x1_0000_0000 * 0x1_0000_0000) by (nonlinear_arith)
            requires
                size > 0x1_0000_0000,
        ;
    }
}

fn is_wall_exec(t: MapType, size: usize, c: Coords) -> (r: bool)
    requires
        size <= 0x1_0000_0000,
        in_bounds(c, size as nat),
    ensures
        r == is_wall(t, size as nat, c),
{
    match t {
        MapType::Rect => c.0 == 0 || c.0 == size - 1 || c.1 == 0 || c.1 == size - 1,
        MapType::Circle => {
            let h: u128 = (size / 2) as u128;
            let x: u128 = c.0 as u128;
            let y: u128 = c.1 as u128;
            let dx: u128 = if x > h { x - h } else { h - x };
            let dy: u128 = if y > h { y - h } else { h - y };
            assert(dx * dx <= 0x1_0000_0000 * 0x1_0000_0000 && dy * dy <= 0x1_0000_0000 * 0x1_0000_0000
                && h * h <= 0x1_0000_0000 * 0x1_0000_0000) by (nonlinear_arith)
                requires
                    dx <= 0x1_0000_0000,
                    dy <= 0x1_0000_0000,
                    h <= 0x1_0000_0000,
            ;
            let ghost hi = h as int;
            assert((hi - c.0) * (hi - c.0) == dx * dx) by (nonlinear_arith)
                requires
                    dx == hi - c.0 || dx == c.0 - hi,
            ;
            assert((hi - c.1) * (hi - c.1) == dy * dy) by (nonlinear_arith)
                requires
                    dy == hi - c.1 || dy == c.1 - hi,
            ;
            dx * dx + dy * dy >= h * h
        },
    }
}

fn wall_at_exec(t: MapType, size: usize, c: Coords) -> (r: bool)
    requires
        size <= 0x1_0000_0000,
    ensures
        r == wall_at(t, size as nat, c),
{
    c.0 < size && c.1 < size && is_wall_exec(t, size, c)
}

fn spawn_candidate_exec(t: MapType, size: usize, c: Coords) -> (r: bool)
    requires
        size <= 0x1_0000_0000,
        in_bounds(c, size as nat),
    ensures
        r == spawn_candidate(t, size as nat, c),
{
    match t {
        MapType::Rect => 1 <= c.0 && c.0 < size - 1 && 1 <= c.1 && c.1 < size - 1 && (c.0 == 1 || size
            - 1 - c.0 == 1 || c.1 == 1 || size - 1 - c.1 == 1),
        MapType::Circle => {
            !is_wall_exec(t, size, c) && (wall_at_exec(t, size, Coords(c.0 + 1, c.1)) || wall_at_exec(
                t,
                size,
                Coords(c.0, c.1 + 1),
            ) || wall_at_exec(t, size, Coords(c.0.saturating_sub(1), c.1)) || wall_at_exec(
                t,
                size,
                Coords(c.0, c.1.saturating_sub(1)),
            ))
        },
    }
}

fn is_spawn_point_exec(t: MapType, size: usize, c: Coords) -> (r: bool)
    requires
        size <= 0x1_0000_0000,
        in_bounds(c, size as nat),
    ensures
        r == is_spawn_point(t, size as nat, c),
{
    let m = Coords(size - 1 - c.0, size - 1 - c.1);
    spawn_candidate_exec(t, size, c) && spawn_candidate_exec(t, size, m) && m != c
}

/// The walls and the sorted spawn points of the map of kind `type_` and side
/// `size`. The walls come in column-then-row order, the k-th taking the id
/// `ids.next + k`.
pub fn init(type_: MapType, size: usize, ids: &mut IdGen) -> (r: (ObjMap, Vec<Coords>))
    requires
        size * size <= usize::MAX,
        old(ids).next + size * size < usize::MAX,
    ensures
        objs_wf(r.0@, size as nat),
        forall|i: int| 0 <= i < r.0@.len() ==> (#[trigger] r.0@[i]).1 == ObjDetails::Terrain(Terrain { type_: TerrainType::Wall }),
        forall|i: int| 0 <= i < r.0@.len() ==> old(ids).next <= (#[trigger] r.0@[i]).0.id.0 < final(ids).next,
        final(ids).next >= old(ids).next,
        final(ids).next <= old(ids).next + size * size,
        final(ids).next == old(ids).next + r.0@.len(),
        forall|i: int| 0 <= i < r.0@.len() ==> (#[trigger] r.0@[i]).0.id.0 == old(ids).next + i,
        forall|i: int, j: int| 0 <= i < j < r.0@.len() ==> coords_lt(r.0@[i].0.coords, r.0@[j].0.coords),
        forall|c: Coords|
            in_bounds(c, size as nat) ==> (is_wall(type_, size as nat, c) <==> exists|i: int|
                0 <= i < r.0@.len() && r.0@[i].0.coords == c),
        spawn_points_wf(r.1@, size as nat),
        forall|c: Coords| r.1@.contains(c) <==> is_spawn_point(type_, size as nat, c),
{
    proof {
        lemma_side_small(size as nat);
    }
    let ghost start = ids.next;
    let mut objs: ObjMap = Vec::new();
    let mut spawn_points: Vec<Coords> = Vec::new();
    let mut x: usize = 0;
    while x < size
        invariant
            size <= 0x1_0000_0000,
            size * size <= usize::MAX,
            x <= size,
            start == old(ids).next,
            start + size * size < usize::MAX,
            ids.next <= start + x * size,
            ids.next >= start,
            ids.next == start + objs@.len(),
            forall|i: int| 0 <= i < objs@.len() ==> (#[trigger] objs@[i]).0.id.0 == start + i,
            forall|i: int, j: int| 0 <= i < j < objs@.len() ==> coords_lt(objs@[i].0.coords, objs@[j].0.coords),
            objs_wf(objs@, size as nat),
            forall|i: int| 0 <= i < objs@.len() ==> (#[trigger] objs@[i]).1 == ObjDetails::Terrain(Terrain { type_: TerrainType::Wall }),
            forall|i: int| 0 <= i < objs@.len() ==> start <= (#[trigger] objs@[i]).0.id.0 < ids.next,
            forall|i: int| 0 <= i < objs@.len() ==> (#[trigger] objs@[i]).0.coords.0 < x,
            forall|c: Coords|
                in_bounds(c, size as nat) && c.0 < x ==> (is_wall(type_, size as nat, c) <==> exists|i: int|
                    0 <= i < objs@.len() && objs@[i].0.coords == c),
            sorted_coords(spawn_points@),
            forall|i: int| 0 <= i < spawn_points@.len() ==> (#[trigger] spawn_points@[i]).0 < x,
            forall|c: Coords| spawn_points@.contains(c) <==> (is_spawn_point(type_, size as nat, c) && c.0 < x),
        decreases size - x,
    {
        let mut y: usize = 0;
        while y < size
            invariant
                size <= 0x1_0000_0000,
                size * size <= usize::MAX,
                x < size,
                y <= size,
                start == old(ids).next,
                start + size * size < usize::MAX,
                ids.next <= start + x * size + y,
                ids.next >= start,
                ids.next == start + objs@.len(),
                forall|i: int| 0 <= i < objs@.len() ==> (#[trigger] objs@[i]).0.id.0 == start + i,
                forall|i: int, j: int| 0 <= i < j < objs@.len() ==> coords_lt(objs@[i].0.coords, objs@[j].0.coords),
                objs_wf(objs@, size as nat),
                forall|i: int| 0 <= i < objs@.len() ==> (#[trigger] objs@[i]).1 == ObjDetails::Terrain(Terrain { type_: TerrainType::Wall }),
                forall|i: int| 0 <= i < objs@.len() ==> start <= (#[trigger] objs@[i]).0.id.0 < ids.next,
                forall|i: int| 0 <= i < objs@.len() ==> coords_lt((#[trigger] objs@[i]).0.coords, Coords(x, y)),
                forall|c: Coords|
                    in_bounds(c, size as nat) && coords_lt(c, Coords(x, y)) ==> (is_wall(type_, size as nat, c) <==> exists|i: int|
                        0 <= i < objs@.len() && objs@[i].0.coords == c),
                sorted_coords(spawn_points@),
                forall|i: int| 0 <= i < spawn_points@.len() ==> coords_lt(#[trigger] spawn_points@[i], Coords(x, y)),
                forall|c: Coords| spawn_points@.contains(c) <==> (is_spawn_point(type_, size as nat, c) && coords_lt(c, Coords(x, y))),
            decreases size - y,
        {
            let c = Coords(x, y);
            assert(x * size + y + 1 <= size * size) by (nonlinear_arith)
                requires
                    x < size,
                    y < size,
            ;
            if is_wall_exec(type_, size, c) {
                let ghost o0 = objs@;
                let id = new_id(ids);
                objs.push(Obj(BasicObj { id, coords: c }, ObjDetails::Terrain(Terrain { type_: TerrainType::Wall })));
                proof {
                    assert(objs@[o0.len() as int].0.coords == c);
                    assert forall|cc: Coords|
                        in_bounds(cc, size as nat) && coords_lt(cc, Coords(x, (y + 1) as usize)) implies (is_wall(type_, size as nat, cc) <==> exists|i: int|
                            0 <= i < objs@.len() && objs@[i].0.coords == cc) by {
                        if cc != c {
                            if exists|i: int| 0 <= i < objs@.len() && objs@[i].0.coords == cc {
                                let i = choose|i: int| 0 <= i < objs@.len() && objs@[i].0.coords == cc;
                                assert(i != o0.len());
                                assert(o0[i].0.coords == cc);
                            }
                            if exists|i: int| 0 <= i < o0.len() && o0[i].0.coords == cc {
                                let i = choose|i: int| 0 <= i < o0.len() && o0[i].0.coords == cc;
                                assert(objs@[i].0.coords == cc);
                            }
                        }
                    }
                    assert forall|i: int, j: int| 0 <= i < j < objs@.len() implies objs@[i].0.id.0 < objs@[j].0.id.0 by {
                        if j < o0.len() {
                            assert(objs@[i] == o0[i]);
                            assert(objs@[j] == o0[j]);
                        } else {
                            assert(objs@[i] == o0[i]);
                        }
                    }
                    assert forall|i: int, j: int|
                        0 <= i < objs@.len() && 0 <= j < objs@.len() && i != j implies objs@[i].0.coords
                        != objs@[j].0.coords by {
                        if i < o0.len() {
                            assert(objs@[i] == o0[i]);
                        }
                        if j < o0.len() {
                            assert(objs@[j] == o0[j]);
                        }
                    }
                }
            } else {
                proof {
                    assert forall|cc: Coords|
                        in_bounds(cc, size as nat) && coords_lt(cc, Coords(x, (y + 1) as usize)) implies (is_wall(type_, size as nat, cc) <==> exists|i: int|
                            0 <= i < objs@.len() && objs@[i].0.coords == cc) by {
                        if cc == c {
                            if exists|i: int| 0 <= i < objs@.len() && objs@[i].0.coords == cc {
                                let i = choose|i: int| 0 <= i < objs@.len() && objs@[i].0.coords == cc;
                                assert(coords_lt(objs@[i].0.coords, c));
                            }
                        }
                    }
                }
            }
            if is_spawn_point_exec(type_, size, c) {
                let ghost s0 = spawn_points@;
                spawn_points.push(c);
                proof {
                    assert(spawn_points@[s0.len() as int] == c);
                    assert forall|cc: Coords| spawn_points@.contains(cc) <==> (is_spawn_point(type_, size as nat, cc) && coords_lt(cc, Coords(x, (y + 1) as usize))) by {
                        if spawn_points@.contains(cc) && cc != c {
                            let i = choose|i: int| 0 <= i < spawn_points@.len() && spawn_points@[i] == cc;
                            assert(s0[i] == cc);
                            assert(s0.contains(cc));
                        }
                        if is_spawn_point(type_, size as nat, cc) && coords_lt(cc, Coords(x, (y + 1) as usize)) && cc != c {
                            assert(s0.contains(cc));
                            let i = choose|i: int| 0 <= i < s0.len() && s0[i] == cc;
                            assert(spawn_points@[i] == cc);
                        }
                    }
                }
            } else {
                proof {
                    assert forall|cc: Coords| spawn_points@.contains(cc) <==> (is_spawn_point(type_, size as nat, cc) && coords_lt(cc, Coords(x, (y + 1) as usize))) by {
                        if spawn_points@.contains(cc) {
                            let i = choose|i: int| 0 <= i < spawn_points@.len() && spawn_points@[i] == cc;
                            assert(coords_lt(spawn_points@[i], c));
                        }
                    }
                }
            }
            y = y + 1;
        }
        proof {
            assert forall|c: Coords| in_bounds(c, size as nat) && c.0 < x + 1 implies (is_wall(type_, size as nat, c) <==> exists|i: int|
                0 <= i < objs@.len() && objs@[i].0.coords == c) by {
                assert(coords_lt(c, Coords(x, size)));
            }
            assert forall|c: Coords| spawn_points@.contains(c) <==> (is_spawn_point(type_, size as nat, c) && c.0 < x + 1) by {
                if is_spawn_point(type_, size as nat, c) && c.0 < x + 1 {
                    assert(coords_lt(c, Coords(x, size)));
                }
                if spawn_points@.contains(c) {
                    let i = choose|i: int| 0 <= i < spawn_points@.len() && spawn_points@[i] == c;
                    assert(coords_lt(spawn_points@[i], Coords(x, size)));
                }
            }
            assert forall|i: int| 0 <= i < spawn_points@.len() implies (#[trigger] spawn_points@[i]).0 < x + 1 by {
                assert(coords_lt(spawn_points@[i], Coords(x, size)));
            }
            assert forall|i: int| 0 <= i < objs@.len() implies (#[trigger] objs@[i]).0.coords.0 < x + 1 by {
                assert(coords_lt(objs@[i].0.coords, Coords(x, size)));
            }
            assert((x + 1) * size == x * size + size) by (nonlinear_arith);
        }
        x = x + 1;
    }
    proof {
        assert forall|i: int| 0 <= i < spawn_points@.len() implies in_bounds(#[trigger] spawn_points@[i], size as nat)
            && spawn_points@.contains(mirror(spawn_points@[i], size as nat))
            && mirror(spawn_points@[i], size as nat) != spawn_points@[i] by {
            let c = spawn_points@[i];
            assert(spawn_points@.contains(c));
            assert(is_spawn_point(type_, size as nat, c));
            let m = mirror(c, size as nat);
            assert(mirror(m, size as nat) == c);
            assert(is_spawn_point(type_, size as nat, m));
        }
    }
    (objs, spawn_points)
}

} // verus!
