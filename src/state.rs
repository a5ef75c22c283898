use vstd::prelude::*;

use rand::rngs::StdRng;

use crate::grid::{in_bounds, new_id, GridMap, IdGen};
use crate::resolve::{
    greatest_moves,
    action_targets, after_attack, apply_attacks, apply_heals, apply_movement, compute_intents,
    count_in, healed, intent_of, mover, moved_to, target_of, targets_upto,
};
use crate::types::{
    Action, ActionType, BasicObj, Coords, GameMode, Id, Obj, ObjDetails, Team, ValidatedRobotAction,
};
use crate::world::{grid_matches, objs_wf, unit_healthy, ObjMap};

verus! {

/// An object that the settings place on the grid before play.
#[derive(Debug, Copy, Clone)]
pub struct InitObj(pub Coords, pub ObjDetails);

/// How many unit pairs spawn at the start and then every `spawn_every` turns
/// (0: only at the start).
#[derive(Debug, Copy, Clone)]
pub struct SpawnSettings {
    pub initial_unit_num: usize,
    pub recurrent_unit_num: usize,
    pub spawn_every: usize,
}

#[derive(Debug, Clone)]
pub struct Settings {
    pub grid_init: Vec<InitObj>,
    pub spawn_settings: Option<SpawnSettings>,
}

impl Default for Settings {
    fn default() -> (r: Settings)
        ensures
            r.grid_init@.len() == 0,
            r.spawn_settings is None,
    {
        Settings { grid_init: Vec::new(), spawn_settings: None }
    }
}

/// The world of a match.
pub struct State {
    pub objs: ObjMap,
    pub grid: GridMap,
    /// Sorted, and closed under `mirror`.
    pub spawn_points: Vec<Coords>,
    pub settings: Settings,
    pub rng: StdRng,
    pub ids: IdGen,
}

/// `a` comes before `b` in row-by-column order: by column, then by row.
pub open spec fn coords_lt(a: Coords, b: Coords) -> bool {
    a.0 < b.0 || (a.0 == b.0 && a.1 < b.1)
}

pub open spec fn sorted_coords(s: Seq<Coords>) -> bool {
    forall|i: int, j: int| 0 <= i < j < s.len() ==> coords_lt(s[i], s[j])
}

/// The point reflection of `c` through the centre of a grid of side `size`.
pub open spec fn mirror(c: Coords, size: nat) -> Coords {
    Coords((size - 1 - c.0) as usize, (size - 1 - c.1) as usize)
}

/// Spawn points are sorted, on the grid, and come in pairs of distinct mirror
/// images.
pub open spec fn spawn_points_wf(s: Seq<Coords>, size: nat) -> bool {
    &&& sorted_coords(s)
    &&& forall|i: int| 0 <= i < s.len() ==> in_bounds(#[trigger] s[i], size)
    &&& forall|i: int| 0 <= i < s.len() ==> s.contains(mirror(#[trigger] s[i], size))
    &&& forall|i: int| 0 <= i < s.len() ==> mirror(#[trigger] s[i], size) != s[i]
}

/// Every unit has a unit of the other team on its mirror cell.
pub open spec fn units_mirrored(objs: Seq<Obj>, size: nat) -> bool {
    forall|i: int|
        0 <= i < objs.len() && (#[trigger] objs[i]).1 is Unit ==> exists|j: int|
            0 <= j < objs.len() && objs[j].1 is Unit && objs[j].0.coords == mirror(objs[i].0.coords, size)
                && objs[j].1->Unit_0.team != objs[i].1->Unit_0.team
}

impl State {
    pub open spec fn size(&self) -> nat {
        self.grid.size as nat
    }

    /// The invariants of a world between turns.
    pub open spec fn wf(&self) -> bool {
        &&& objs_wf(self.objs@, self.size())
        &&& grid_matches(self.grid, self.objs@)
        &&& spawn_points_wf(self.spawn_points@, self.size())
        &&& forall|i: int| 0 <= i < self.objs@.len() ==> (#[trigger] self.objs@[i]).0.id.0 < self.ids.next
    }

    /// The mirror image of `loc` on this world's grid.
    pub fn mirror_loc(&self, loc: Coords) -> (r: Coords)
        requires
            self.grid.wf(),
            in_bounds(loc, self.size()),
        ensures
            r == mirror(loc, self.size()),
            in_bounds(r, self.size()),
    {
        Coords(self.grid.size - 1 - loc.0, self.grid.size - 1 - loc.1)
    }

    /// Places a new object with a fresh id on the empty cell `c`.
    fn add_obj(&mut self, c: Coords, details: ObjDetails)
        requires
            old(self).wf(),
            in_bounds(c, old(self).size()),
            old(self).grid.at(c) is None,
            old(self).ids.next < usize::MAX,
            unit_healthy(Obj(BasicObj { id: crate::types::Id(0), coords: c }, details)),
        ensures
            final(self).wf(),
            final(self).objs@ == old(self).objs@.push(
                Obj(BasicObj { id: crate::types::Id(old(self).ids.next), coords: c }, details),
            ),
            final(self).ids.next == old(self).ids.next + 1,
            final(self).grid.size == old(self).grid.size,
            final(self).grid.at(c) == Some(crate::types::Id(old(self).ids.next)),
            forall|d: Coords| d != c ==> final(self).grid.at(d) == old(self).grid.at(d),
            final(self).spawn_points == old(self).spawn_points,
            final(self).settings == old(self).settings,
            final(self).rng == old(self).rng,
    {
        let ghost o0 = self.objs@;
        let id = new_id(&mut self.ids);
        let o = Obj(BasicObj { id, coords: c }, details);
        self.grid.set(c, Some(id));
        self.objs.push(o);
        proof {
            let n = o0.len() as int;
            assert(self.objs@[n] == o);
            assert forall|i: int| 0 <= i < n implies o0[i].0.coords != c by {
                assert(old(self).grid.at(o0[i].0.coords) is Some);
            }
            assert forall|i: int| 0 <= i < n + 1 implies self.grid.at(#[trigger] self.objs@[i].0.coords)
                == Some(self.objs@[i].0.id) by {
                if i < n {
                    assert(self.objs@[i] == o0[i]);
                    assert(o0[i].0.coords != c);
                }
            }
            assert forall|cc: Coords| #[trigger] self.grid.at(cc) is Some implies exists|i: int|
                0 <= i < n + 1 && self.objs@[i].0.coords == cc by {
                if cc == c {
                    assert(self.objs@[n].0.coords == cc);
                } else {
                    assert(old(self).grid.at(cc) is Some);
                    let i = choose|i: int| 0 <= i < n && o0[i].0.coords == cc;
                    assert(self.objs@[i] == o0[i]);
                }
            }
            assert forall|i: int, j: int|
                0 <= i < n + 1 && 0 <= j < n + 1 && i != j implies self.objs@[i].0.coords
                != self.objs@[j].0.coords by {
                if i < n && j < n {
                    assert(self.objs@[i] == o0[i]);
                    assert(self.objs@[j] == o0[j]);
                } else if i < n {
                    assert(self.objs@[i] == o0[i]);
                } else {
                    assert(self.objs@[j] == o0[j]);
                }
            }
            assert forall|i: int, j: int| 0 <= i < j < n + 1 implies self.objs@[i].0.id.0
                < self.objs@[j].0.id.0 by {
                assert(self.objs@[i] == o0[i]);
                if j < n {
                    assert(self.objs@[j] == o0[j]);
                }
            }
            assert forall|i: int| 0 <= i < n + 1 implies in_bounds(#[trigger] self.objs@[i].0.coords, self.size()) by {
                if i < n {
                    assert(self.objs@[i] == o0[i]);
                }
            }
            assert forall|i: int| 0 <= i < n + 1 implies unit_healthy(#[trigger] self.objs@[i]) by {
                if i < n {
                    assert(self.objs@[i] == o0[i]);
                }
            }
            assert forall|i: int| 0 <= i < n + 1 implies (#[trigger] self.objs@[i]).0.id.0 < self.ids.next by {
                if i < n {
                    assert(self.objs@[i] == o0[i]);
                }
            }
        }
    }

    /// Takes the object at position `k` out of the world.
    fn remove_obj(&mut self, k: usize)
        requires
            old(self).wf(),
            k < old(self).objs@.len(),
        ensures
            final(self).wf(),
            final(self).objs@ == old(self).objs@.remove(k as int),
            final(self).grid.size == old(self).grid.size,
            final(self).grid.at(old(self).objs@[k as int].0.coords) is None,
            forall|d: Coords| d != old(self).objs@[k as int].0.coords ==> final(self).grid.at(d) == old(self).grid.at(d),
            final(self).ids == old(self).ids,
            final(self).spawn_points == old(self).spawn_points,
            final(self).settings == old(self).settings,
            final(self).rng == old(self).rng,
    {
        let ghost o0 = self.objs@;
        let c = self.objs[k].0.coords;
        self.grid.set(c, None);
        self.objs.remove(k);
        proof {
            let n = o0.len() as int;
            assert forall|i: int| 0 <= i < n - 1 implies #[trigger] self.objs@[i] == o0[if i < k { i } else { i + 1 }] by {}
            assert forall|i: int| 0 <= i < n - 1 implies self.grid.at(#[trigger] self.objs@[i].0.coords)
                == Some(self.objs@[i].0.id) by {
                let j = if i < k { i } else { i + 1 };
                assert(self.objs@[i] == o0[j]);
                assert(o0[j].0.coords != c);
            }
            assert forall|cc: Coords| #[trigger] self.grid.at(cc) is Some implies exists|i: int|
                0 <= i < n - 1 && self.objs@[i].0.coords == cc by {
                assert(old(self).grid.at(cc) is Some);
                let j = choose|j: int| 0 <= j < n && o0[j].0.coords == cc;
                assert(j != k);
                let i = if j < k { j } else { j - 1 };
                assert(self.objs@[i] == o0[j]);
            }
            assert forall|a: int, b: int|
                0 <= a < n - 1 && 0 <= b < n - 1 && a != b implies self.objs@[a].0.coords
                != self.objs@[b].0.coords by {
                let ja = if a < k { a } else { a + 1 };
                let jb = if b < k { b } else { b + 1 };
                assert(self.objs@[a] == o0[ja]);
                assert(self.objs@[b] == o0[jb]);
            }
            assert forall|a: int, b: int| 0 <= a < b < n - 1 implies self.objs@[a].0.id.0
                < self.objs@[b].0.id.0 by {
                let ja = if a < k { a } else { a + 1 };
                let jb = if b < k { b } else { b + 1 };
                assert(self.objs@[a] == o0[ja]);
                assert(self.objs@[b] == o0[jb]);
            }
            assert forall|i: int| 0 <= i < n - 1 implies in_bounds(#[trigger] self.objs@[i].0.coords, self.size()) by {
                let j = if i < k { i } else { i + 1 };
                assert(self.objs@[i] == o0[j]);
            }
            assert forall|i: int| 0 <= i < n - 1 implies unit_healthy(#[trigger] self.objs@[i]) by {
                let j = if i < k { i } else { i + 1 };
                assert(self.objs@[i] == o0[j]);
            }
            assert forall|i: int| 0 <= i < n - 1 implies (#[trigger] self.objs@[i]).0.id.0 < self.ids.next by {
                let j = if i < k { i } else { i + 1 };
                assert(self.objs@[i] == o0[j]);
            }
        }
    }
}

fn coords_lt_exec(a: Coords, b: Coords) -> (r: bool)
    ensures
        r == coords_lt(a, b),
{
    a.0 < b.0 || (a.0 == b.0 && a.1 < b.1)
}

/// Removes `el` from the sorted list `v`, found by binary search.
pub fn binary_remove(v: &mut Vec<Coords>, el: &Coords)
    requires
        sorted_coords(old(v)@),
        old(v)@.contains(*el),
    ensures
        sorted_coords(final(v)@),
        final(v)@.len() == old(v)@.len() - 1,
        forall|c: Coords| final(v)@.contains(c) <==> (old(v)@.contains(c) && c != *el),
{
    let ghost w = choose|w: int| 0 <= w < v@.len() && v@[w] == *el;
    let mut lo: usize = 0;
    let mut hi: usize = v.len();
    while lo < hi
        invariant
            0 <= lo <= w < hi <= v@.len(),
            v@ == old(v)@,
            sorted_coords(v@),
            v@[w] == *el,
        ensures
            lo == w,
            v@ == old(v)@,
        decreases hi - lo,
    {
        let mid = lo + (hi - lo) / 2;
        if v[mid] == *el {
            assert(mid == w) by {
                if mid < w {
                    assert(coords_lt(v@[mid as int], v@[w]));
                } else if mid > w {
                    assert(coords_lt(v@[w], v@[mid as int]));
                }
            }
            lo = mid;
            hi = mid + 1;
            break;
        } else if coords_lt_exec(v[mid], *el) {
            assert(mid < w) by {
                if mid > w {
                    assert(coords_lt(v@[w], v@[mid as int]));
                }
            }
            lo = mid + 1;
        } else {
            assert(w < mid) by {
                if w > mid {
                    assert(coords_lt(v@[mid as int], v@[w]));
                }
            }
            hi = mid;
        }
    }
    let ghost v0 = v@;
    v.remove(lo);
    proof {
        assert(lo == w);
        assert forall|c: Coords| v@.contains(c) <==> (v0.contains(c) && c != *el) by {
            if v@.contains(c) {
                let i = choose|i: int| 0 <= i < v@.len() && v@[i] == c;
                let j = if i < w { i } else { i + 1 };
                assert(v0[j] == c);
                if j < w {
                    assert(coords_lt(v0[j], v0[w]));
                } else {
                    assert(coords_lt(v0[w], v0[j]));
                }
            }
            if v0.contains(c) && c != *el {
                let j = choose|j: int| 0 <= j < v0.len() && v0[j] == c;
                assert(j != w);
                let i = if j < w { j } else { j - 1 };
                assert(v@[i] == c);
            }
        }
        assert forall|a: int, b: int| 0 <= a < b < v@.len() implies coords_lt(v@[a], v@[b]) by {
            let ja = if a < w { a } else { a + 1 };
            let jb = if b < w { b } else { b + 1 };
            assert(v@[a] == v0[ja]);
            assert(v@[b] == v0[jb]);
        }
    }
}

/// What each object of `objs` does this turn.
pub open spec fn intents(
    objs: Seq<Obj>,
    actions: Seq<(Id, ValidatedRobotAction)>,
    mode: GameMode,
) -> Seq<Option<Action>> {
    Seq::new(objs.len(), |i: int| intent_of(objs[i], actions, mode))
}

/// `objs` after the moves of a turn: the movers of the largest set that can
/// all move together go to their targets; every other object stays.
pub open spec fn moved_world(objs: Seq<Obj>, ints: Seq<Option<Action>>, size: nat) -> Seq<Obj> {
    Seq::new(
        objs.len(),
        |k: int|
            if greatest_moves(objs, ints, size).contains(k) {
                moved_to(objs[k], target_of(objs, ints, k, ActionType::Move)->0)
            } else {
                objs[k]
            },
    )
}

/// Every object of `objs` after the heals aimed at its cell.
pub open spec fn heal_all(objs: Seq<Obj>, targets: Seq<Coords>) -> Seq<Obj> {
    Seq::new(objs.len(), |k: int| healed(objs[k], count_in(targets, objs[k].0.coords)))
}

proof fn lemma_after_no_attack(objs: Seq<Obj>, targets: Seq<Coords>)
    requires
        targets.len() == 0,
        forall|i: int| 0 <= i < objs.len() ==> unit_healthy(#[trigger] objs[i]),
    ensures
        after_attack(objs, targets) == objs,
    decreases objs.len(),
{
    if objs.len() > 0 {
        let rest = objs.drop_last();
        assert forall|i: int| 0 <= i < rest.len() implies unit_healthy(#[trigger] rest[i]) by {
            assert(rest[i] == objs[i]);
        }
        lemma_after_no_attack(rest, targets);
        assert(unit_healthy(objs[objs.len() - 1]));
        assert(objs.drop_last().push(objs.last()) == objs);
    }
}

/// Two grids that both record exactly the same objects agree on every cell.
pub proof fn lemma_grid_determined(g1: GridMap, g2: GridMap, objs: Seq<Obj>)
    requires
        grid_matches(g1, objs),
        grid_matches(g2, objs),
    ensures
        forall|c: Coords| g1.at(c) == g2.at(c),
{
    assert forall|c: Coords| g1.at(c) == g2.at(c) by {
        if g1.at(c) is Some {
            let i = choose|i: int| 0 <= i < objs.len() && objs[i].0.coords == c;
            assert(g2.at(objs[i].0.coords) == Some(objs[i].0.id));
        } else if g2.at(c) is Some {
            let i = choose|i: int| 0 <= i < objs.len() && objs[i].0.coords == c;
            assert(g1.at(objs[i].0.coords) == Some(objs[i].0.id));
        }
    }
}

/// `after` is `before` once a turn with `actions` is resolved: the moves
/// (see `moved_world`), then the attacks, then the heals, all aimed from
/// where the units stood at the start of the turn.
#[verifier::opaque]
pub open spec fn turn_resolved(
    before: Seq<Obj>,
    actions: Seq<(Id, ValidatedRobotAction)>,
    mode: GameMode,
    after: Seq<Obj>,
    size: nat,
) -> bool {
    let ints = intents(before, actions, mode);
    after == heal_all(
        after_attack(moved_world(before, ints, size), targets_upto(before, ints, ActionType::Attack, before.len() as int)),
        targets_upto(before, ints, ActionType::Heal, before.len() as int),
    )
}

/// No entry of `actions` is an action: each is empty or an error.
pub open spec fn no_actions(actions: Seq<(Id, ValidatedRobotAction)>) -> bool {
    forall|i: int| 0 <= i < actions.len() ==> !(#[trigger] actions[i].1 matches Ok(Some(_)))
}

proof fn lemma_no_actions(actions: Seq<(Id, ValidatedRobotAction)>, id: Id)
    requires
        no_actions(actions),
    ensures
        crate::resolve::action_for(actions, id) is None,
    decreases actions.len(),
{
    if actions.len() > 0 {
        let rest = actions.drop_last();
        assert forall|i: int| 0 <= i < rest.len() implies !(#[trigger] rest[i].1 matches Ok(Some(_))) by {
            assert(rest[i] == actions[i]);
        }
        lemma_no_actions(rest, id);
        assert(!(actions[actions.len() - 1].1 matches Ok(Some(_))));
    }
}

/// Resolves one turn: the moves, then the attacks, then (in the game mode that
/// has them) the heals, all aimed from where the units stood at the start.
pub fn run_turn(
    robot_actions: &Vec<(Id, ValidatedRobotAction)>,
    state: &mut State,
    game_mode: GameMode,
)
    requires
        old(state).wf(),
    ensures
        final(state).wf(),
        final(state).grid.size == old(state).grid.size,
        final(state).ids == old(state).ids,
        final(state).spawn_points == old(state).spawn_points,
        final(state).settings == old(state).settings,
        final(state).rng == old(state).rng,
        turn_resolved(old(state).objs@, robot_actions@, game_mode, final(state).objs@, old(state).size()),
        no_actions(robot_actions@) ==> final(state).objs@ == old(state).objs@,
        no_actions(robot_actions@) ==> forall|c: Coords| final(state).grid.at(c) == old(state).grid.at(c),
{
    let ghost o = state.objs@;
    let ghost g0 = state.grid;
    let size = state.grid.size;
    let ints = compute_intents(&state.objs, robot_actions, game_mode);
    proof {
        assert(ints@ == intents(o, robot_actions@, game_mode));
    }
    let attacks = action_targets(&state.objs, &ints, ActionType::Attack, size);
    let heals = action_targets(&state.objs, &ints, ActionType::Heal, size);
    let moved = apply_movement(&mut state.objs, &mut state.grid, &ints);
    let ghost m = state.objs@;
    let ghost gm = state.grid;
    proof {
        assert(m =~= moved_world(o, ints@, size as nat));
    }
    apply_attacks(&mut state.objs, &mut state.grid, &attacks);
    let ghost a = state.objs@;
    apply_heals(&mut state.objs, &state.grid, &heals);
    proof {
        assert(state.objs@ =~= heal_all(a, heals@));
        reveal(turn_resolved);
        assert forall|i: int| 0 <= i < state.objs@.len() implies (#[trigger] state.objs@[i]).0.id.0
            < state.ids.next by {
            assert(state.objs@[i].0 == a[i].0);
            let j = choose|j: int| 0 <= j < m.len() && a[i].0 == m[j].0;
            assert(m[j].0.id == o[j].0.id);
            assert(o[j].0.id.0 < state.ids.next);
        }
        if no_actions(robot_actions@) {
            assert forall|id: Id| #[trigger] crate::resolve::action_for(robot_actions@, id) is None by {
                lemma_no_actions(robot_actions@, id);
            }
            assert forall|k: int| 0 <= k < o.len() implies #[trigger] ints@[k] is None by {
                assert(ints@[k] == intent_of(o[k], robot_actions@, game_mode));
            }
            assert(m =~= o);
            assert forall|n: int| 0 <= n <= o.len() implies #[trigger] targets_upto(o, ints@, ActionType::Attack, n).len() == 0
                && targets_upto(o, ints@, ActionType::Heal, n).len() == 0 by {
                lemma_targets_none(o, ints@, n);
            }
            lemma_after_no_attack(m, attacks@);
            assert forall|k: int| 0 <= k < o.len() implies #[trigger] state.objs@[k] == o[k] by {
                assert(unit_healthy(o[k]));
                assert(count_in(heals@, o[k].0.coords) == 0);
            }
            assert(state.objs@ =~= o);
            lemma_grid_determined(state.grid, g0, o);
        }
    }
}

proof fn lemma_targets_none(objs: Seq<Obj>, ints: Seq<Option<Action>>, n: int)
    requires
        0 <= n <= objs.len(),
        ints.len() == objs.len(),
        forall|k: int| 0 <= k < objs.len() ==> #[trigger] ints[k] is None,
    ensures
        targets_upto(objs, ints, ActionType::Attack, n).len() == 0,
        targets_upto(objs, ints, ActionType::Heal, n).len() == 0,
    decreases n,
{
    if n > 0 {
        lemma_targets_none(objs, ints, n - 1);
        assert(ints[n - 1] is None);
    }
}

/// A spawn point where a pair of units could appear: it and its mirror are empty.
pub open spec fn pair_free(st: &State, p: Coords) -> bool {
    st.spawn_points@.contains(p) && st.grid.at(p) is None && st.grid.at(mirror(p, st.size())) is None
}

/// The objects at `n0 + 2t` and `n0 + 2t + 1` are a fresh Blue soldier on a
/// spawn point and a fresh Red soldier on its mirror.
pub open spec fn spawned_pair(objs: Seq<Obj>, n0: int, t: int, sp: Seq<Coords>, size: nat) -> bool {
    let b = objs[n0 + 2 * t];
    let r = objs[n0 + 2 * t + 1];
    &&& sp.contains(b.0.coords)
    &&& is_new_soldier(b, Team::Blue, b.0.coords)
    &&& is_new_soldier(r, Team::Red, mirror(b.0.coords, size))
}

/// A fresh soldier of `team` with full health at `c`.
pub open spec fn is_new_soldier(o: Obj, team: Team, c: Coords) -> bool {
    &&& o.0.coords == c
    &&& o.1 == ObjDetails::Unit(
        crate::types::Unit { type_: crate::types::UnitType::Soldier, team, health: crate::types::UNIT_HEALTH },
    )
}

/// What a spawn did to the world `before`, giving `after`: the objects it
/// added come in pairs, a Blue soldier on a spawn point and a Red one on its
/// mirror, at most as many pairs as configured; fewer only when no free pair
/// of spawn points is left (or ids ran out).
#[verifier::opaque]
pub open spec fn spawn_outcome(before: &State, after: &State, is_initial: bool) -> bool {
    let n0 = before.objs@.len();
    let added = after.objs@.len() - n0;
    &&& added % 2 == 0
    &&& added <= 2 * spawn_count(before, is_initial)
    &&& forall|t: int|
        0 <= t < added / 2 ==> #[trigger] spawned_pair(after.objs@, n0 as int, t, before.spawn_points@, before.size())
    &&& added < 2 * spawn_count(before, is_initial) ==> (forall|p: Coords| !pair_free(after, p))
        || after.ids.next >= usize::MAX - 2
}

pub open spec fn spawn_count(st: &State, is_initial: bool) -> nat {
    match st.settings.spawn_settings {
        Some(ss) => if is_initial { ss.initial_unit_num as nat } else { ss.recurrent_unit_num as nat },
        None => 0,
    }
}

proof fn lemma_mirror_involutive(c: Coords, size: nat)
    requires
        in_bounds(c, size),
        size <= usize::MAX,
    ensures
        mirror(mirror(c, size), size) == c,
        in_bounds(mirror(c, size), size),
{
}

proof fn lemma_available_after(
    a0: Seq<Coords>,
    a1: Seq<Coords>,
    g0: GridMap,
    g1: GridMap,
    sp: Seq<Coords>,
    sz: nat,
    p: Coords,
    m: Coords,
)
    requires
        forall|q: Coords| a0.contains(q) <==> (sp.contains(q) && g0.at(q) is None && g0.at(mirror(q, sz)) is None),
        forall|q: Coords| a1.contains(q) <==> (a0.contains(q) && q != p && q != m),
        g1.at(p) is Some,
        g1.at(m) is Some,
        forall|d: Coords| d != p && d != m ==> g1.at(d) == g0.at(d),
        m == mirror(p, sz),
        in_bounds(p, sz),
        sz <= usize::MAX,
        forall|i: int| 0 <= i < sp.len() ==> in_bounds(#[trigger] sp[i], sz),
    ensures
        forall|q: Coords| a1.contains(q) <==> (sp.contains(q) && g1.at(q) is None && g1.at(mirror(q, sz)) is None),
{
    lemma_mirror_involutive(p, sz);
    assert forall|q: Coords| a1.contains(q) <==> (sp.contains(q) && g1.at(q) is None && g1.at(mirror(q, sz)) is None) by {
        if sp.contains(q) {
            let i = choose|i: int| 0 <= i < sp.len() && sp[i] == q;
            assert(in_bounds(sp[i], sz));
            lemma_mirror_involutive(q, sz);
        }
        if a1.contains(q) {
            assert(a0.contains(q));
        }
    }
}

proof fn lemma_mirrored_after_pair(ob: Seq<Obj>, o: Seq<Obj>, sz: nat, p: Coords, m: Coords)
    requires
        o.len() == ob.len() + 2,
        forall|a: int| 0 <= a < ob.len() ==> o[a] == ob[a],
        is_new_soldier(o[ob.len() as int], Team::Blue, p),
        is_new_soldier(o[ob.len() + 1int], Team::Red, m),
        m == mirror(p, sz),
        in_bounds(p, sz),
        sz <= usize::MAX,
    ensures
        units_mirrored(ob, sz) ==> units_mirrored(o, sz),
{
    lemma_mirror_involutive(p, sz);
    let nb = ob.len() as int;
    if units_mirrored(ob, sz) {
        assert forall|a: int|
            0 <= a < o.len() && (#[trigger] o[a]).1 is Unit implies exists|j: int|
                0 <= j < o.len() && o[j].1 is Unit && o[j].0.coords == mirror(o[a].0.coords, sz)
                    && o[j].1->Unit_0.team != o[a].1->Unit_0.team by {
            if a < nb {
                assert(o[a] == ob[a]);
                let j = choose|j: int|
                    0 <= j < ob.len() && ob[j].1 is Unit && ob[j].0.coords == mirror(ob[a].0.coords, sz)
                        && ob[j].1->Unit_0.team != ob[a].1->Unit_0.team;
                assert(o[j] == ob[j]);
            } else if a == nb {
                assert(o[nb + 1].0.coords == m);
            } else {
                assert(o[nb].0.coords == p);
            }
        }
    }
}

impl State {
    /// The spawn points that are empty and have an empty mirror, in order.
    #[verifier::spinoff_prover]
    #[verifier::rlimit(60)]
    fn available_points(&self) -> (r: Vec<Coords>)
        requires
            self.wf(),
        ensures
            sorted_coords(r@),
            forall|q: Coords| r@.contains(q) <==> pair_free(self, q),
    {
        let sp = &self.spawn_points;
        let mut available: Vec<Coords> = Vec::new();
        let mut i: usize = 0;
        while i < sp.len()
            invariant
                self.wf(),
                sp == &self.spawn_points,
                i <= sp@.len(),
                sorted_coords(available@),
                forall|k: int| 0 <= k < available@.len() ==> exists|j: int| 0 <= j < i && sp@[j] == #[trigger] available@[k],
                forall|q: Coords| available@.contains(q) <==> (pair_free(self, q) && exists|j: int| 0 <= j < i && sp@[j] == q),
            decreases sp@.len() - i,
        {
            let p = sp[i];
            assert(in_bounds(sp@[i as int], self.size()));
            let m = self.mirror_loc(p);
            let ghost a0 = available@;
            if !self.grid.contains(p) && !self.grid.contains(m) {
                available.push(p);
                proof {
                    assert forall|k: int| 0 <= k < available@.len() implies exists|j: int|
                        0 <= j < i + 1 && sp@[j] == #[trigger] available@[k] by {
                        if k < a0.len() {
                            assert(available@[k] == a0[k]);
                        } else {
                            assert(sp@[i as int] == available@[k]);
                        }
                    }
                    assert forall|a: int, b: int| 0 <= a < b < available@.len() implies coords_lt(available@[a], available@[b]) by {
                        if b == a0.len() {
                            let ja = choose|j: int| 0 <= j < i && sp@[j] == a0[a];
                            assert(coords_lt(sp@[ja], sp@[i as int]));
                        }
                    }
                }
            }
            proof {
                assert forall|q: Coords| available@.contains(q) <==> (pair_free(self, q) && exists|j: int| 0 <= j < i + 1 && sp@[j] == q) by {
                    if available@.contains(q) {
                        let k = choose|k: int| 0 <= k < available@.len() && available@[k] == q;
                        if k < a0.len() {
                            assert(a0[k] == q);
                            assert(a0.contains(q));
                        } else {
                            assert(sp@[i as int] == q);
                            assert(sp@.contains(q));
                        }
                    }
                    if pair_free(self, q) && (exists|j: int| 0 <= j < i + 1 && sp@[j] == q) {
                        let j = choose|j: int| 0 <= j < i + 1 && sp@[j] == q;
                        if j == i {
                            assert(available@[available@.len() - 1] == q);
                        } else {
                            assert(a0.contains(q));
                            let k = choose|k: int| 0 <= k < a0.len() && a0[k] == q;
                            assert(available@[k] == q);
                        }
                    }
                }
            }
            i = i + 1;
        }
        proof {
            assert forall|q: Coords| available@.contains(q) <==> pair_free(self, q) by {
                if pair_free(self, q) {
                    let j = choose|j: int| 0 <= j < sp@.len() && sp@[j] == q;
                }
            }
        }
        available
    }

    /// Spawns one pair on the available point `p` and its mirror, and takes
    /// both out of `available`.
    #[verifier::spinoff_prover]
    #[verifier::rlimit(60)]
    fn spawn_pair(&mut self, p: Coords, available: &mut Vec<Coords>)
        requires
            old(self).wf(),
            old(self).ids.next < usize::MAX - 2,
            sorted_coords(old(available)@),
            forall|q: Coords| old(available)@.contains(q) <==> pair_free(old(self), q),
            old(available)@.contains(p),
        ensures
            final(self).wf(),
            final(self).grid.size == old(self).grid.size,
            final(self).spawn_points == old(self).spawn_points,
            final(self).settings == old(self).settings,
            final(self).rng == old(self).rng,
            sorted_coords(final(available)@),
            forall|q: Coords| final(available)@.contains(q) <==> pair_free(final(self), q),
            final(self).objs@.len() == old(self).objs@.len() + 2,
            final(self).objs@.subrange(0, old(self).objs@.len() as int) == old(self).objs@,
            old(self).spawn_points@.contains(p),
            is_new_soldier(final(self).objs@[old(self).objs@.len() as int], Team::Blue, p),
            is_new_soldier(final(self).objs@[old(self).objs@.len() + 1int], Team::Red, mirror(p, old(self).size())),
            units_mirrored(old(self).objs@, old(self).size()) ==> units_mirrored(
                final(self).objs@,
                final(self).size(),
            ),
    {
        let ghost sp = self.spawn_points@;
        let ghost sz = self.size();
        assert(pair_free(self, p));
        let ghost pi = choose|j: int| 0 <= j < sp.len() && sp[j] == p;
        assert(in_bounds(sp[pi], sz));
        assert(sp.contains(mirror(sp[pi], sz)));
        assert(mirror(sp[pi], sz) != sp[pi]);
        let m = self.mirror_loc(p);
        proof {
            lemma_mirror_involutive(p, sz);
            assert(pair_free(self, m));
        }
        let ghost a0 = available@;
        binary_remove(available, &p);
        binary_remove(available, &m);
        let ghost g0 = self.grid;
        let ghost ob = self.objs@;
        let blue = ObjDetails::Unit(
            crate::types::Unit { type_: crate::types::UnitType::Soldier, team: Team::Blue, health: crate::types::UNIT_HEALTH },
        );
        let red = ObjDetails::Unit(
            crate::types::Unit { type_: crate::types::UnitType::Soldier, team: Team::Red, health: crate::types::UNIT_HEALTH },
        );
        self.add_obj(p, blue);
        let ghost ob1 = self.objs@;
        self.add_obj(m, red);
        proof {
            let nb = ob.len() as int;
            assert(self.objs@[nb] == ob1[nb]);
            assert(self.objs@.subrange(0, nb) =~= ob);
            assert forall|q: Coords| a0.contains(q) <==> (sp.contains(q) && g0.at(q) is None && g0.at(mirror(q, sz)) is None) by {
                assert(pair_free(old(self), q) == (sp.contains(q) && g0.at(q) is None && g0.at(mirror(q, sz)) is None));
            }
            lemma_available_after(a0, available@, g0, self.grid, sp, sz, p, m);
            lemma_mirrored_after_pair(ob, self.objs@, sz, p, m);
        }
    }

    /// Spawns up to the configured number of unit pairs, each on a spawn point
    /// drawn at random among those that are empty and have an empty mirror: a
    /// Blue soldier on the point and a Red one on its mirror. Drawing stops
    /// early only when no such point is left (or ids run out).
    #[verifier::spinoff_prover]
    #[verifier::rlimit(100)]
    pub fn spawn_units(&mut self, is_initial: bool)
        requires
            old(self).wf(),
        ensures
            final(self).wf(),
            final(self).grid.size == old(self).grid.size,
            final(self).spawn_points == old(self).spawn_points,
            final(self).settings == old(self).settings,
            final(self).objs@.subrange(0, old(self).objs@.len() as int) == old(self).objs@,
            final(self).objs@.len() >= old(self).objs@.len(),
            spawn_outcome(old(self), final(self), is_initial),
            old(self).settings.spawn_settings is None ==> final(self).objs@ == old(self).objs@ && final(self).rng
                == old(self).rng && final(self).ids == old(self).ids,
            units_mirrored(old(self).objs@, old(self).size()) ==> units_mirrored(
                final(self).objs@,
                final(self).size(),
            ),
    {
        reveal(spawn_outcome);
        let ghost n0 = self.objs@.len();
        let ghost o0 = self.objs@;
        let ss = match self.settings.spawn_settings {
            Some(ss) => ss,
            None => {
                proof {
                    assert(self.objs@.subrange(0, n0 as int) =~= o0);
                }
                return ;
            },
        };
        let mut available = self.available_points();
        let unit_num = if is_initial {
            ss.initial_unit_num
        } else {
            ss.recurrent_unit_num
        };
        let mut k: usize = 0;
        while k < unit_num
            invariant
                self.wf(),
                k <= unit_num,
                unit_num == spawn_count(old(self), is_initial),
                self.grid.size == old(self).grid.size,
                self.spawn_points == old(self).spawn_points,
                self.settings == old(self).settings,
                sorted_coords(available@),
                forall|q: Coords| available@.contains(q) <==> pair_free(self, q),
                self.objs@.len() == n0 + 2 * k,
                self.objs@.subrange(0, n0 as int) == o0,
                o0 == old(self).objs@,
                forall|t: int| 0 <= t < k ==> #[trigger] spawned_pair(self.objs@, n0 as int, t, old(self).spawn_points@, old(self).size()),
                units_mirrored(o0, self.size()) ==> units_mirrored(self.objs@, self.size()),
            ensures
                self.wf(),
                self.grid.size == old(self).grid.size,
                self.spawn_points == old(self).spawn_points,
                self.settings == old(self).settings,
                self.objs@.subrange(0, n0 as int) == o0,
                (self.objs@.len() - n0) % 2 == 0,
                self.objs@.len() - n0 <= 2 * unit_num,
                forall|t: int| 0 <= t < (self.objs@.len() - n0) / 2 ==> #[trigger] spawned_pair(self.objs@, n0 as int, t, old(self).spawn_points@, old(self).size()),
                self.objs@.len() - n0 < 2 * unit_num ==> (forall|p: Coords| !pair_free(self, p))
                    || self.ids.next >= usize::MAX - 2,
                units_mirrored(o0, self.size()) ==> units_mirrored(self.objs@, self.size()),
            decreases unit_num - k,
        {
            if self.ids.next >= usize::MAX - 2 {
                assert((self.objs@.len() - n0) / 2 == k);
                break;
            }
            let p = match crate::rng::choose_point(&mut self.rng, &available) {
                Some(p) => p,
                None => {
                    proof {
                        assert((self.objs@.len() - n0) / 2 == k);
                        assert forall|q: Coords| !pair_free(self, q) by {
                            if pair_free(self, q) {
                                assert(available@.contains(q));
                            }
                        }
                    }
                    break;
                },
            };
            let ghost ob = self.objs@;
            self.spawn_pair(p, &mut available);
            proof {
                let nb = ob.len() as int;
                assert forall|t: int| 0 <= t < k + 1 implies #[trigger] spawned_pair(self.objs@, n0 as int, t, old(self).spawn_points@, old(self).size()) by {
                    if t < k {
                        assert(spawned_pair(ob, n0 as int, t, old(self).spawn_points@, old(self).size()));
                        assert(self.objs@[n0 + 2 * t] == self.objs@.subrange(0, nb)[n0 + 2 * t]);
                        assert(self.objs@[n0 + 2 * t + 1] == self.objs@.subrange(0, nb)[n0 + 2 * t + 1]);
                    } else {
                        assert(n0 + 2 * t == nb);
                    }
                }
                assert(self.objs@.subrange(0, n0 as int) =~= self.objs@.subrange(0, nb).subrange(0, n0 as int));
            }
            k = k + 1;
        }
        proof {
            assert((self.objs@.len() - n0) / 2 == k || self.objs@.len() - n0 < 2 * unit_num);
        }
    }
}

proof fn lemma_remove_contains(s: Seq<Obj>, k: int)
    requires
        0 <= k < s.len(),
        crate::world::ids_increasing(s),
    ensures
        forall|o: Obj| s.remove(k).contains(o) <==> (s.contains(o) && o != s[k]),
{
    assert forall|o: Obj| s.remove(k).contains(o) <==> (s.contains(o) && o != s[k]) by {
        if s.remove(k).contains(o) {
            let i = choose|i: int| 0 <= i < s.len() - 1 && s.remove(k)[i] == o;
            let j = if i < k { i } else { i + 1 };
            assert(s[j] == o);
            assert(s[j].0.id != s[k].0.id);
        }
        if s.contains(o) && o != s[k] {
            let j = choose|j: int| 0 <= j < s.len() && s[j] == o;
            let i = if j < k { j } else { j - 1 };
            assert(s.remove(k)[i] == o);
        }
    }
}

/// The object is a unit standing on one of the first `n` points of `sp`.
pub open spec fn unit_on(o: Obj, sp: Seq<Coords>, n: int) -> bool {
    o.1 is Unit && exists|j: int| 0 <= j < n && sp[j] == o.0.coords
}

impl State {
    /// Removes the object on cell `p`, if one stands there (only a unit, if
    /// `only_units`).
    #[verifier::spinoff_prover]
    #[verifier::rlimit(60)]
    fn clear_cell(&mut self, p: Coords, only_units: bool)
        requires
            old(self).wf(),
        ensures
            final(self).wf(),
            final(self).grid.size == old(self).grid.size,
            final(self).ids == old(self).ids,
            final(self).spawn_points == old(self).spawn_points,
            final(self).settings == old(self).settings,
            final(self).rng == old(self).rng,
            forall|o: Obj|
                final(self).objs@.contains(o) <==> (old(self).objs@.contains(o) && !(o.0.coords == p && (!only_units || o.1 is Unit))),
    {
        let ghost ob = self.objs@;
        let target: Option<usize> = match self.grid.get(p) {
            Some(id) => crate::world::find_index(&self.objs, id),
            None => None,
        };
        proof {
            assert forall|j: int| 0 <= j < ob.len() && ob[j].0.coords == p implies target == Some(j as usize) by {
                assert(self.grid.at(ob[j].0.coords) == Some(ob[j].0.id));
                assert(crate::world::has_id(ob, ob[j].0.id));
                let k = target.unwrap();
                if k != j {
                    assert(ob[j].0.id != ob[k as int].0.id);
                }
            }
            if let Some(k) = target {
                let j = choose|j: int| 0 <= j < ob.len() && ob[j].0.coords == p;
                assert(self.grid.at(ob[j].0.coords) == Some(ob[j].0.id));
                if j != k {
                    assert(ob[j].0.id != ob[k as int].0.id);
                }
                assert(ob[k as int].0.coords == p);
            }
        }
        if let Some(k) = target {
            let is_unit = match self.objs[k].1 {
                ObjDetails::Unit(_) => true,
                ObjDetails::Terrain(_) => false,
            };
            if !only_units || is_unit {
                proof {
                    lemma_remove_contains(ob, k as int);
                }
                self.remove_obj(k);
                proof {
                    assert forall|o: Obj| self.objs@.contains(o) <==> (ob.contains(o) && !(o.0.coords == p && (!only_units || o.1 is Unit))) by {
                        if ob.contains(o) {
                            let j = choose|j: int| 0 <= j < ob.len() && ob[j] == o;
                            if o.0.coords == p {
                                assert(target == Some(j as usize));
                            }
                        }
                    }
                }
                return ;
            }
        }
        proof {
            assert forall|o: Obj| self.objs@.contains(o) <==> (ob.contains(o) && !(o.0.coords == p && (!only_units || o.1 is Unit))) by {
                if ob.contains(o) && o.0.coords == p && (!only_units || o.1 is Unit) {
                    let j = choose|j: int| 0 <= j < ob.len() && ob[j] == o;
                    assert(target == Some(j as usize));
                }
            }
        }
    }

    /// Removes every unit that stands on a spawn point, of either team.
    #[verifier::spinoff_prover]
    #[verifier::rlimit(60)]
    pub fn clear_spawn(&mut self)
        requires
            old(self).wf(),
        ensures
            final(self).wf(),
            final(self).grid.size == old(self).grid.size,
            final(self).ids == old(self).ids,
            final(self).spawn_points == old(self).spawn_points,
            final(self).settings == old(self).settings,
            final(self).rng == old(self).rng,
            forall|o: Obj|
                final(self).objs@.contains(o) <==> (old(self).objs@.contains(o) && !(o.1 is Unit
                    && old(self).spawn_points@.contains(o.0.coords))),
    {
        let ghost o0 = self.objs@;
        let ghost sp = self.spawn_points@;
        let mut i: usize = 0;
        while i < self.spawn_points.len()
            invariant
                self.wf(),
                i <= sp.len(),
                sp == self.spawn_points@,
                self.grid.size == old(self).grid.size,
                self.ids == old(self).ids,
                self.spawn_points == old(self).spawn_points,
                self.rng == old(self).rng,
                self.settings == old(self).settings,
                o0 == old(self).objs@,
                forall|o: Obj| self.objs@.contains(o) <==> (o0.contains(o) && !unit_on(o, sp, i as int)),
            decreases sp.len() - i,
        {
            let p = self.spawn_points[i];
            let ghost ob = self.objs@;
            self.clear_cell(p, true);
            let ghost ii = i as int;
            i = i + 1;
            proof {
                assert forall|o: Obj| self.objs@.contains(o) <==> (o0.contains(o) && !unit_on(o, sp, i as int)) by {
                    assert(ob.contains(o) == (o0.contains(o) && !unit_on(o, sp, ii)));
                    if unit_on(o, sp, i as int) && o.0.coords != p {
                        let j = choose|j: int| 0 <= j < i && sp[j] == o.0.coords;
                        assert(j != ii);
                    }
                    if o.1 is Unit && o.0.coords == p {
                        assert(sp[ii] == o.0.coords);
                    }
                    if unit_on(o, sp, ii) {
                        let j = choose|j: int| 0 <= j < ii && sp[j] == o.0.coords;
                        assert(0 <= j < i && sp[j] == o.0.coords);
                    }
                }
            }
        }
        proof {
            assert forall|o: Obj| (o.1 is Unit && sp.contains(o.0.coords)) == unit_on(o, sp, sp.len() as int) by {
                if o.1 is Unit && sp.contains(o.0.coords) {
                    let j = choose|j: int| 0 <= j < sp.len() && sp[j] == o.0.coords;
                }
            }
        }
    }
}

/// How many units of `team` are among `objs`.
pub open spec fn team_count(objs: Seq<Obj>, team: Team) -> nat {
    crate::world::team_ids(objs, team).len()
}

/// The team with strictly more surviving units; none on a tie.
pub open spec fn winner_of(objs: Seq<Obj>) -> Option<Team> {
    if team_count(objs, Team::Blue) > team_count(objs, Team::Red) {
        Some(Team::Blue)
    } else if team_count(objs, Team::Red) > team_count(objs, Team::Blue) {
        Some(Team::Red)
    } else {
        None
    }
}

fn count_team(objs: &ObjMap, team: Team) -> (r: usize)
    ensures
        r == team_count(objs@, team),
{
    let mut r: usize = 0;
    let mut i: usize = 0;
    while i < objs.len()
        invariant
            i <= objs@.len(),
            r == team_count(objs@.subrange(0, i as int), team),
            r <= i,
        decreases objs@.len() - i,
    {
        proof {
            assert(objs@.subrange(0, i as int + 1).drop_last() == objs@.subrange(0, i as int));
        }
        if let ObjDetails::Unit(u) = objs[i].1 {
            if u.team == team {
                r = r + 1;
            }
        }
        i = i + 1;
    }
    proof {
        assert(objs@.subrange(0, objs@.len() as int) == objs@);
    }
    r
}

impl State {
    /// The team with the most surviving units, if one has strictly more.
    pub fn determine_winner(&self) -> (r: Option<Team>)
        ensures
            r == winner_of(self.objs@),
    {
        let blue = count_team(&self.objs, Team::Blue);
        let red = count_team(&self.objs, Team::Red);
        if blue > red {
            Some(Team::Blue)
        } else if red > blue {
            Some(Team::Red)
        } else {
            None
        }
    }
}

/// The object is a wall, or carries the details of an entry of `init`.
pub open spec fn wall_or_placed(o: Obj, init: Seq<InitObj>) -> bool {
    ||| o.1 == ObjDetails::Terrain(crate::types::Terrain { type_: crate::types::TerrainType::Wall })
    ||| exists|j: int| 0 <= j < init.len() && init[j].1 == o.1
}

/// An entry of `grid_init` that can be placed: on the grid, and a unit in it
/// alive with at most full health.
pub open spec fn init_entry_ok(e: InitObj, size: nat) -> bool {
    in_bounds(e.0, size) && unit_healthy(Obj(BasicObj { id: Id(0), coords: e.0 }, e.1))
}

/// Position of the last of the first `k` entries of `init` that names cell
/// `c`, or -1 if none does.
pub open spec fn last_at(init: Seq<InitObj>, k: int, c: Coords) -> int
    decreases k,
{
    if k <= 0 {
        -1
    } else if init[k - 1].0 == c {
        k - 1
    } else {
        last_at(init, k - 1, c)
    }
}

/// The object on cell `c` once the first `k` entries of `init` are placed,
/// in order, over the walls `w`: the last entry naming `c`, with the id
/// `first + its position`, or else the wall of `w` on `c`, if any.
pub open spec fn placed_at(w: Seq<Obj>, init: Seq<InitObj>, k: int, first: nat, c: Coords) -> Option<Obj> {
    let j = last_at(init, k, c);
    if j >= 0 {
        Some(Obj(BasicObj { id: Id((first + j) as usize), coords: c }, init[j].1))
    } else if exists|i: int| 0 <= i < w.len() && w[i].0.coords == c {
        Some(w[choose|i: int| 0 <= i < w.len() && w[i].0.coords == c])
    } else {
        None
    }
}

/// `w` is the map's walls: one per wall cell, in column-then-row order, with
/// ids 1, 2, ...
pub open spec fn map_walls(t: crate::types::MapType, size: nat, w: Seq<Obj>) -> bool {
    &&& forall|i: int| 0 <= i < w.len() ==> in_bounds(#[trigger] w[i].0.coords, size)
    &&& forall|i: int| 0 <= i < w.len() ==> (#[trigger] w[i]).0.id.0 == 1 + i
    &&& forall|i: int| 0 <= i < w.len() ==> (#[trigger] w[i]).1 == ObjDetails::Terrain(
        crate::types::Terrain { type_: crate::types::TerrainType::Wall },
    )
    &&& forall|i: int, j: int| 0 <= i < j < w.len() ==> coords_lt(w[i].0.coords, w[j].0.coords)
    &&& forall|c: Coords|
        in_bounds(c, size) ==> (crate::map::is_wall(t, size, c) <==> exists|i: int| 0 <= i < w.len() && w[i].0.coords == c)
}

/// `objs` is the world a map of kind `t` and side `size` starts as: its walls,
/// then the entries of `init` placed in order, each on its cell with the next
/// fresh id, replacing what stood there.
#[verifier::opaque]
pub open spec fn initial_world(t: crate::types::MapType, size: nat, init: Seq<InitObj>, objs: Seq<Obj>) -> bool {
    exists|w: Seq<Obj>|
        #[trigger] map_walls(t, size, w) && {
            &&& forall|c: Coords|
                in_bounds(c, size) ==> ((exists|i: int| 0 <= i < objs.len() && objs[i].0.coords == c)
                    <==> placed_at(w, init, init.len() as int, 1 + w.len(), c) is Some)
            &&& forall|i: int|
                0 <= i < objs.len() ==> Some(#[trigger] objs[i]) == placed_at(
                    w,
                    init,
                    init.len() as int,
                    1 + w.len(),
                    objs[i].0.coords,
                )
        }
}

impl State {
    /// A new world: the map of kind `grid_type` and side `grid_size`, then the
    /// objects of `settings.grid_init`, in order, each on its cell with a fresh
    /// id, replacing what stood there. The match's random draws come from a
    /// generator seeded with `seed`.
    pub fn new(grid_type: crate::types::MapType, grid_size: usize, settings: Settings, seed: [u8; 32]) -> (r: State)
        requires
            grid_size * grid_size <= usize::MAX,
            grid_size < usize::MAX,
            1 + grid_size * grid_size + settings.grid_init@.len() < usize::MAX,
            forall|k: int| 0 <= k < settings.grid_init@.len() ==> init_entry_ok(#[trigger] settings.grid_init@[k], grid_size as nat),
        ensures
            r.wf(),
            r.grid.size == grid_size,
            r.settings == settings,
            forall|c: Coords| r.spawn_points@.contains(c) <==> crate::map::is_spawn_point(grid_type, grid_size as nat, c),
            initial_world(grid_type, grid_size as nat, settings.grid_init@, r.objs@),
            (forall|j: int| 0 <= j < settings.grid_init@.len() ==> !((#[trigger] settings.grid_init@[j]).1 is Unit))
                ==> units_mirrored(r.objs@, grid_size as nat),
    {
        let mut ids = IdGen::new();
        crate::grid::reset_id(&mut ids);
        let (objs, spawn_points) = crate::map::init(grid_type, grid_size, &mut ids);
        let grid = crate::world::create_grid_map(&objs, grid_size);
        let rng = crate::rng::seeded_rng(seed);
        let ghost w = objs@;
        let ghost n = objs@.len();
        let mut st = State { objs, grid, spawn_points, settings, rng, ids };
        let ghost init = st.settings.grid_init@;
        proof {
            assert(map_walls(grid_type, grid_size as nat, w));
            assert forall|c: Coords| in_bounds(c, grid_size as nat) implies ((exists|i: int| 0 <= i < st.objs@.len() && st.objs@[i].0.coords == c)
                <==> placed_at(w, init, 0, 1 + n, c) is Some) by {}
            assert forall|i: int| 0 <= i < st.objs@.len() implies Some(#[trigger] st.objs@[i]) == placed_at(w, init, 0, 1 + n, st.objs@[i].0.coords) by {
                let j = choose|j: int| 0 <= j < w.len() && w[j].0.coords == w[i].0.coords;
                if j != i {
                    assert(w[j].0.coords != w[i].0.coords);
                }
            }
        }
        let mut k: usize = 0;
        while k < st.settings.grid_init.len()
            invariant
                st.wf(),
                st.grid.size == grid_size,
                st.settings == settings,
                init == settings.grid_init@,
                k <= init.len(),
                n == w.len(),
                st.ids.next == 1 + n + k,
                n <= grid_size * grid_size,
                1 + grid_size * grid_size + init.len() < usize::MAX,
                forall|j: int| 0 <= j < init.len() ==> init_entry_ok(#[trigger] init[j], grid_size as nat),
                map_walls(grid_type, grid_size as nat, w),
                forall|c: Coords| st.spawn_points@.contains(c) <==> crate::map::is_spawn_point(grid_type, grid_size as nat, c),
                forall|i: int| 0 <= i < st.objs@.len() ==> wall_or_placed(#[trigger] st.objs@[i], init),
                forall|c: Coords|
                    in_bounds(c, grid_size as nat) ==> ((exists|i: int| 0 <= i < st.objs@.len() && st.objs@[i].0.coords == c)
                        <==> placed_at(w, init, k as int, 1 + n, c) is Some),
                forall|i: int|
                    0 <= i < st.objs@.len() ==> Some(#[trigger] st.objs@[i]) == placed_at(w, init, k as int, 1 + n, st.objs@[i].0.coords),
            decreases init.len() - k,
        {
            let io = st.settings.grid_init[k];
            let c = io.0;
            assert(init_entry_ok(init[k as int], grid_size as nat));
            let ghost o0 = st.objs@;
            st.clear_cell(c, false);
            let ghost o1 = st.objs@;
            proof {
                assert forall|i: int| 0 <= i < o1.len() implies o1[i].0.coords != c by {
                    assert(o1.contains(o1[i]));
                }
                lemma_grid_is_objs(&st);
            }
            st.add_obj(c, io.1);
            proof {
                let new_o = Obj(BasicObj { id: Id((1 + n + k) as usize), coords: c }, io.1);
                let o2 = st.objs@;
                assert(o2[o1.len() as int] == new_o);
                assert(placed_at(w, init, k + 1, 1 + n, c) == Some(new_o));
                assert forall|cc: Coords| cc != c implies #[trigger] placed_at(w, init, k + 1, 1 + n, cc) == placed_at(w, init, k as int, 1 + n, cc) by {
                    assert(last_at(init, k + 1, cc) == last_at(init, k as int, cc));
                }
                assert forall|a: int| 0 <= a < o2.len() implies wall_or_placed(#[trigger] o2[a], init) by {
                    if a < o1.len() {
                        assert(o2[a] == o1[a]);
                        assert(o1.contains(o1[a]));
                        let b = choose|b: int| 0 <= b < o0.len() && o0[b] == o1[a];
                        assert(wall_or_placed(o0[b], init));
                    } else {
                        assert(init[k as int].1 == o2[a].1);
                    }
                }
                assert forall|i: int| 0 <= i < o2.len() implies Some(#[trigger] o2[i]) == placed_at(w, init, k + 1, 1 + n, o2[i].0.coords) by {
                    if i < o1.len() {
                        assert(o2[i] == o1[i]);
                        assert(o1.contains(o1[i]));
                        let b = choose|b: int| 0 <= b < o0.len() && o0[b] == o1[i];
                        assert(Some(o0[b]) == placed_at(w, init, k as int, 1 + n, o0[b].0.coords));
                        assert(o1[i].0.coords != c);
                    }
                }
                assert forall|cc: Coords| in_bounds(cc, grid_size as nat) implies ((exists|i: int| 0 <= i < o2.len() && o2[i].0.coords == cc)
                    <==> placed_at(w, init, k + 1, 1 + n, cc) is Some) by {
                    if cc == c {
                        assert(o2[o1.len() as int].0.coords == cc);
                    } else {
                        if exists|i: int| 0 <= i < o2.len() && o2[i].0.coords == cc {
                            let i = choose|i: int| 0 <= i < o2.len() && o2[i].0.coords == cc;
                            assert(i < o1.len());
                            assert(o2[i] == o1[i]);
                            assert(o1.contains(o1[i]));
                            let b = choose|b: int| 0 <= b < o0.len() && o0[b] == o1[i];
                            assert(o0[b].0.coords == cc);
                        }
                        if placed_at(w, init, k as int, 1 + n, cc) is Some {
                            let b = choose|b: int| 0 <= b < o0.len() && o0[b].0.coords == cc;
                            assert(o0.contains(o0[b]));
                            assert(o1.contains(o0[b]));
                            let i = choose|i: int| 0 <= i < o1.len() && o1[i] == o0[b];
                            assert(o2[i] == o1[i]);
                        }
                    }
                }
            }
            k = k + 1;
        }
        proof {
            reveal(initial_world);
            if forall|j: int| 0 <= j < init.len() ==> !((#[trigger] init[j]).1 is Unit) {
                assert forall|i: int| 0 <= i < st.objs@.len() implies !((#[trigger] st.objs@[i]).1 is Unit) by {
                    assert(wall_or_placed(st.objs@[i], init));
                    if st.objs@[i].1 is Unit {
                        let j = choose|j: int| 0 <= j < init.len() && init[j].1 == st.objs@[i].1;
                        assert(!(init[j].1 is Unit));
                    }
                }
            }
        }
        st
    }
}

/// In a world between turns, a cell holds an id in the grid exactly when one
/// object stands on it, and then it is that object's id.
pub proof fn lemma_grid_is_objs(st: &State)
    requires
        st.wf(),
    ensures
        forall|c: Coords|
            #[trigger] st.grid.at(c) is Some <==> exists|i: int| 0 <= i < st.objs@.len() && st.objs@[i].0.coords == c,
        forall|i: int| 0 <= i < st.objs@.len() ==> st.grid.at(#[trigger] st.objs@[i].0.coords) == Some(st.objs@[i].0.id),
        forall|i: int, j: int|
            0 <= i < st.objs@.len() && 0 <= j < st.objs@.len() && st.objs@[i].0.coords == st.objs@[j].0.coords ==> i == j,
{
    assert forall|c: Coords| #[trigger] st.grid.at(c) is Some <==> exists|i: int|
        0 <= i < st.objs@.len() && st.objs@[i].0.coords == c by {
        if exists|i: int| 0 <= i < st.objs@.len() && st.objs@[i].0.coords == c {
            let i = choose|i: int| 0 <= i < st.objs@.len() && st.objs@[i].0.coords == c;
            assert(st.grid.at(st.objs@[i].0.coords) == Some(st.objs@[i].0.id));
        }
    }
}

/// In a world between turns, every unit is alive and at most at full health.
pub proof fn lemma_units_healthy(st: &State)
    requires
        st.wf(),
    ensures
        forall|i: int|
            0 <= i < st.objs@.len() && (#[trigger] st.objs@[i]).1 is Unit ==> 1 <= st.objs@[i].1->Unit_0.health
                <= crate::types::UNIT_HEALTH,
{
    assert forall|i: int| 0 <= i < st.objs@.len() && (#[trigger] st.objs@[i]).1 is Unit implies 1
        <= st.objs@[i].1->Unit_0.health <= crate::types::UNIT_HEALTH by {
        assert(unit_healthy(st.objs@[i]));
    }
}

/// Spawning is configured and due on turn `turn`: the first turn, or every
/// `spawn_every` turns after it.
#[verifier::opaque]
pub open spec fn spawn_due(st: &State, turn: int) -> bool {
    match st.settings.spawn_settings {
        Some(ss) => turn == 1 || (ss.spawn_every != 0 && (turn - 1) % (ss.spawn_every as int) == 0),
        None => false,
    }
}

impl State {
    /// Which spawn is due on turn `turn`: the initial one (`true`), a
    /// recurrent one (`false`), or none.
    #[verifier::spinoff_prover]
    pub fn spawn_kind(&self, turn: usize) -> (r: Option<bool>)
        requires
            turn >= 1,
        ensures
            r is Some <==> spawn_due(self, turn as int),
            r == Some(true) <==> (turn == 1 && self.settings.spawn_settings is Some),
    {
        reveal(spawn_due);
        match self.settings.spawn_settings {
            None => None,
            Some(ss) => {
                if turn == 1 {
                    Some(true)
                } else if ss.spawn_every != 0 && (turn - 1) % ss.spawn_every == 0 {
                    Some(false)
                } else {
                    None
                }
            },
        }
    }
}

/// Two sequences, each strictly increasing in `key`, that hold the same
/// elements are equal.
pub proof fn lemma_sorted_same_elements<A>(s1: Seq<A>, s2: Seq<A>, key: spec_fn(A) -> int)
    requires
        forall|i: int, j: int| 0 <= i < j < s1.len() ==> key(s1[i]) < key(s1[j]),
        forall|i: int, j: int| 0 <= i < j < s2.len() ==> key(s2[i]) < key(s2[j]),
        forall|x: A| s1.contains(x) <==> s2.contains(x),
    ensures
        s1 == s2,
    decreases s1.len() + s2.len(),
{
    if s1.len() == 0 {
        if s2.len() > 0 {
            assert(s2.contains(s2[0]));
        }
        assert(s1 =~= s2);
    } else if s2.len() == 0 {
        assert(s1.contains(s1[0]));
    } else {
        assert(s1.contains(s1[0]));
        assert(s2.contains(s2[0]));
        let j = choose|j: int| 0 <= j < s2.len() && s2[j] == s1[0];
        let i = choose|i: int| 0 <= i < s1.len() && s1[i] == s2[0];
        if j > 0 {
            if i > 0 {
                assert(key(s2[0]) < key(s2[j]));
                assert(key(s1[0]) < key(s1[i]));
            } else {
                assert(key(s2[0]) < key(s2[j]));
            }
        }
        assert(s1[0] == s2[0]);
        let t1 = s1.drop_first();
        let t2 = s2.drop_first();
        assert forall|x: A| t1.contains(x) <==> t2.contains(x) by {
            if t1.contains(x) {
                let a = choose|a: int| 0 <= a < t1.len() && t1[a] == x;
                assert(s1[a + 1] == x);
                assert(s1.contains(x));
                let b = choose|b: int| 0 <= b < s2.len() && s2[b] == x;
                if b == 0 {
                    assert(key(s1[0]) < key(s1[a + 1]));
                }
                assert(t2[b - 1] == x);
            }
            if t2.contains(x) {
                let a = choose|a: int| 0 <= a < t2.len() && t2[a] == x;
                assert(s2[a + 1] == x);
                assert(s2.contains(x));
                let b = choose|b: int| 0 <= b < s1.len() && s1[b] == x;
                if b == 0 {
                    assert(key(s2[0]) < key(s2[a + 1]));
                }
                assert(t1[b - 1] == x);
            }
        }
        lemma_sorted_same_elements(t1, t2, key);
        assert(s1.len() == s2.len());
        assert forall|k: int| 0 <= k < s1.len() implies s1[k] == s2[k] by {
            if k > 0 {
                assert(s1[k] == t1[k - 1]);
                assert(s2[k] == t2[k - 1]);
            }
        }
        assert(s1 =~= s2);
    }
}

/// The map's walls are one and the same sequence, whichever way they are found.
proof fn lemma_map_walls_unique(t: crate::types::MapType, size: nat, w1: Seq<Obj>, w2: Seq<Obj>)
    requires
        map_walls(t, size, w1),
        map_walls(t, size, w2),
        size <= usize::MAX,
    ensures
        w1 == w2,
{
    let cs1 = w1.map_values(|o: Obj| o.0.coords);
    let cs2 = w2.map_values(|o: Obj| o.0.coords);
    let key = |c: Coords| c.0 * 0x1_0000_0000_0000_0000 + c.1;
    assert forall|c: Coords, d: Coords| coords_lt(c, d) implies key(c) < key(d) by {
        let k: int = 0x1_0000_0000_0000_0000;
        assert(c.1 < k && d.1 < k);
        if c.0 < d.0 {
            assert(c.0 * k + c.1 < d.0 * k + d.1) by (nonlinear_arith)
                requires
                    c.0 < d.0,
                    c.1 < k,
                    0 <= d.1,
            ;
        }
    }
    assert forall|i: int, j: int| 0 <= i < j < cs1.len() implies key(cs1[i]) < key(cs1[j]) by {
        assert(coords_lt(w1[i].0.coords, w1[j].0.coords));
    }
    assert forall|i: int, j: int| 0 <= i < j < cs2.len() implies key(cs2[i]) < key(cs2[j]) by {
        assert(coords_lt(w2[i].0.coords, w2[j].0.coords));
    }
    assert forall|c: Coords| cs1.contains(c) <==> cs2.contains(c) by {
        if cs1.contains(c) {
            let i = choose|i: int| 0 <= i < cs1.len() && cs1[i] == c;
            assert(w1[i].0.coords == c);
            assert(in_bounds(w1[i].0.coords, size));
            let j = choose|j: int| 0 <= j < w2.len() && w2[j].0.coords == c;
            assert(cs2[j] == c);
        }
        if cs2.contains(c) {
            let i = choose|i: int| 0 <= i < cs2.len() && cs2[i] == c;
            assert(w2[i].0.coords == c);
            assert(in_bounds(w2[i].0.coords, size));
            let j = choose|j: int| 0 <= j < w1.len() && w1[j].0.coords == c;
            assert(cs1[j] == c);
        }
    }
    lemma_sorted_same_elements(cs1, cs2, key);
    assert forall|i: int| 0 <= i < w1.len() implies w1[i] == w2[i] by {
        assert(cs1[i] == cs2[i]);
    }
    assert(w1 =~= w2);
}

/// Two worlds started from the same map and the same initial objects hold the
/// same objects, in the same order.
pub proof fn lemma_initial_world_determined(
    t: crate::types::MapType,
    size: nat,
    init: Seq<InitObj>,
    a: Seq<Obj>,
    b: Seq<Obj>,
)
    requires
        size <= usize::MAX,
        initial_world(t, size, init, a),
        initial_world(t, size, init, b),
        objs_wf(a, size),
        objs_wf(b, size),
    ensures
        a == b,
{
    reveal(initial_world);
    let wa = choose|w: Seq<Obj>| #[trigger] map_walls(t, size, w) && {
        &&& forall|c: Coords|
            in_bounds(c, size) ==> ((exists|i: int| 0 <= i < a.len() && a[i].0.coords == c)
                <==> placed_at(w, init, init.len() as int, 1 + w.len(), c) is Some)
        &&& forall|i: int|
            0 <= i < a.len() ==> Some(#[trigger] a[i]) == placed_at(w, init, init.len() as int, 1 + w.len(), a[i].0.coords)
    };
    let wb = choose|w: Seq<Obj>| #[trigger] map_walls(t, size, w) && {
        &&& forall|c: Coords|
            in_bounds(c, size) ==> ((exists|i: int| 0 <= i < b.len() && b[i].0.coords == c)
                <==> placed_at(w, init, init.len() as int, 1 + w.len(), c) is Some)
        &&& forall|i: int|
            0 <= i < b.len() ==> Some(#[trigger] b[i]) == placed_at(w, init, init.len() as int, 1 + w.len(), b[i].0.coords)
    };
    lemma_map_walls_unique(t, size, wa, wb);
    assert forall|x: Obj| a.contains(x) <==> b.contains(x) by {
        if a.contains(x) {
            let i = choose|i: int| 0 <= i < a.len() && a[i] == x;
            assert(Some(a[i]) == placed_at(wa, init, init.len() as int, 1 + wa.len(), a[i].0.coords));
            assert(in_bounds(a[i].0.coords, size));
            let j = choose|j: int| 0 <= j < b.len() && b[j].0.coords == x.0.coords;
            assert(Some(b[j]) == placed_at(wb, init, init.len() as int, 1 + wb.len(), b[j].0.coords));
            assert(b[j] == x);
        }
        if b.contains(x) {
            let i = choose|i: int| 0 <= i < b.len() && b[i] == x;
            assert(Some(b[i]) == placed_at(wb, init, init.len() as int, 1 + wb.len(), b[i].0.coords));
            assert(in_bounds(b[i].0.coords, size));
            let j = choose|j: int| 0 <= j < a.len() && a[j].0.coords == x.0.coords;
            assert(Some(a[j]) == placed_at(wa, init, init.len() as int, 1 + wa.len(), a[j].0.coords));
            assert(a[j] == x);
        }
    }
    let key = |o: Obj| o.0.id.0 as int;
    assert forall|i: int, j: int| 0 <= i < j < a.len() implies key(a[i]) < key(a[j]) by {}
    assert forall|i: int, j: int| 0 <= i < j < b.len() implies key(b[i]) < key(b[j]) by {}
    lemma_sorted_same_elements(a, b, key);
}

} // verus!
