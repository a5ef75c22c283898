use vstd::prelude::*;

use crate::grid::{in_bounds, GridMap};
use crate::types::{
    Action, ActionType, Coords, Direction, GameMode, Id, Obj, ObjDetails, ValidatedRobotAction,
    step,
};
use crate::world::{grid_matches, objs_wf, ObjMap};

verus! {

/// The action a team gave for `id` this turn, if the last entry for `id` is a
/// valid action.
pub open spec fn action_for(actions: Seq<(Id, ValidatedRobotAction)>, id: Id) -> Option<Action>
    decreases actions.len(),
{
    if actions.len() == 0 {
        None
    } else if actions.last().0 == id {
        match actions.last().1 {
            Ok(Some(a)) => Some(a),
            _ => None,
        }
    } else {
        action_for(actions.drop_last(), id)
    }
}

/// What an object does this turn: only units act, and heals count only in
/// the game mode that has them.
pub open spec fn intent_of(
    o: Obj,
    actions: Seq<(Id, ValidatedRobotAction)>,
    mode: GameMode,
) -> Option<Action> {
    if o.1 is Unit {
        match action_for(actions, o.0.id) {
            Some(a) => if a.type_ == ActionType::Heal && mode != GameMode::NormalHeal {
                None
            } else {
                Some(a)
            },
            None => None,
        }
    } else {
        None
    }
}

/// The cell that object `i` acts on with an action of kind `kind`.
pub open spec fn target_of(objs: Seq<Obj>, ints: Seq<Option<Action>>, i: int, kind: ActionType) -> Option<Coords> {
    match ints[i] {
        Some(a) => if a.type_ == kind {
            Some(step(objs[i].0.coords, a.direction))
        } else {
            None
        },
        None => None,
    }
}

pub open spec fn claims(objs: Seq<Obj>, ints: Seq<Option<Action>>, j: int, t: Coords) -> bool {
    0 <= j < objs.len() && target_of(objs, ints, j, ActionType::Move) == Some(t)
}

pub open spec fn dir_of(ints: Seq<Option<Action>>, i: int) -> Direction {
    ints[i].unwrap().direction
}

/// Between two moves into one cell, the one whose direction ranks first wins;
/// on equal rank the earlier object wins.
pub open spec fn beats(ints: Seq<Option<Action>>, i: int, j: int) -> bool {
    ||| dir_of(ints, i).priority_spec() < dir_of(ints, j).priority_spec()
    ||| (dir_of(ints, i).priority_spec() == dir_of(ints, j).priority_spec() && i < j)
}

/// Object `i` is the one chosen to move into its target cell.
pub open spec fn elected(objs: Seq<Obj>, ints: Seq<Option<Action>>, i: int) -> bool {
    &&& 0 <= i < objs.len()
    &&& target_of(objs, ints, i, ActionType::Move) is Some
    &&& forall|j: int|
        j != i && #[trigger] claims(objs, ints, j, target_of(objs, ints, i, ActionType::Move)->0)
            ==> beats(ints, i, j)
}

/// Some object moves into the cell `i` comes from, heading the opposite way:
/// the two would pass through each other.
pub open spec fn swap_blocked(objs: Seq<Obj>, ints: Seq<Option<Action>>, i: int) -> bool {
    let o = step(target_of(objs, ints, i, ActionType::Move)->0, dir_of(ints, i).opposite_spec());
    exists|j: int| #[trigger] claims(objs, ints, j, o) && dir_of(ints, j) == dir_of(ints, i).opposite_spec()
}

/// Object `i` tries to move this turn.
pub open spec fn mover(objs: Seq<Obj>, ints: Seq<Option<Action>>, i: int) -> bool {
    elected(objs, ints, i) && !swap_blocked(objs, ints, i)
}

/// The action of `id` in `actions`: the last entry for it, if that is a valid action.
pub fn lookup_action(actions: &Vec<(Id, ValidatedRobotAction)>, id: Id) -> (r: Option<Action>)
    ensures
        r == action_for(actions@, id),
{
    proof {
        assert(actions@.subrange(0, actions@.len() as int) == actions@);
    }
    let mut i: usize = actions.len();
    while i > 0
        invariant
            i <= actions@.len(),
            action_for(actions@, id) == action_for(actions@.subrange(0, i as int), id),
        decreases i,
    {
        proof {
            assert(actions@.subrange(0, i as int).drop_last() == actions@.subrange(0, i - 1));
        }
        if actions[i - 1].0 == id {
            return match &actions[i - 1].1 {
                Ok(Some(a)) => Some(*a),
                _ => None,
            };
        }
        i = i - 1;
    }
    None
}

/// What each object of `objs` does this turn, in the same order.
pub fn compute_intents(
    objs: &ObjMap,
    actions: &Vec<(Id, ValidatedRobotAction)>,
    mode: GameMode,
) -> (r: Vec<Option<Action>>)
    ensures
        r@.len() == objs@.len(),
        forall|i: int| 0 <= i < objs@.len() ==> r@[i] == intent_of(#[trigger] objs@[i], actions@, mode),
{
    proof {
        assert(actions@.subrange(0, actions@.len() as int) == actions@);
    }
    let mut r: Vec<Option<Action>> = Vec::new();
    let mut i: usize = 0;
    while i < objs.len()
        invariant
            i <= objs@.len(),
            r@.len() == i,
            forall|k: int| 0 <= k < i ==> r@[k] == intent_of(#[trigger] objs@[k], actions@, mode),
        decreases objs@.len() - i,
    {
        let o = objs[i];
        let it = match o.1 {
            ObjDetails::Unit(_) => match lookup_action(actions, o.0.id) {
                Some(a) => {
                    if a.type_ == ActionType::Heal && mode != GameMode::NormalHeal {
                        None
                    } else {
                        Some(a)
                    }
                },
                None => None,
            },
            ObjDetails::Terrain(_) => None,
        };
        r.push(it);
        i = i + 1;
    }
    r
}

/// The cell object `i` acts on with an action of kind `kind`, if any.
fn target_exec(objs: &ObjMap, ints: &Vec<Option<Action>>, i: usize, kind: ActionType) -> (r: Option<Coords>)
    requires
        ints@.len() == objs@.len(),
        i < objs@.len(),
        objs@[i as int].0.coords.0 < usize::MAX,
        objs@[i as int].0.coords.1 < usize::MAX,
    ensures
        r == target_of(objs@, ints@, i as int, kind),
{
    match ints[i] {
        Some(a) => {
            if a.type_ == kind {
                Some(objs[i].0.coords.add(a.direction))
            } else {
                None
            }
        },
        None => None,
    }
}

/// Whether object `i` is the one chosen to move into its target cell.
pub fn is_elected(objs: &ObjMap, ints: &Vec<Option<Action>>, i: usize, size: usize) -> (r: bool)
    requires
        ints@.len() == objs@.len(),
        i < objs@.len(),
        objs_wf(objs@, size as nat),
        size < usize::MAX,
    ensures
        r == elected(objs@, ints@, i as int),
{
    let ti = target_exec(objs, ints, i, ActionType::Move);
    let t = match ti {
        Some(t) => t,
        None => return false,
    };
    let di = ints[i].unwrap().direction.priority();
    let mut j: usize = 0;
    while j < objs.len()
        invariant
            ints@.len() == objs@.len(),
            i < objs@.len(),
            objs_wf(objs@, size as nat),
            size < usize::MAX,
            j <= objs@.len(),
            ti == Some(t),
            ti == target_of(objs@, ints@, i as int, ActionType::Move),
            di as nat == dir_of(ints@, i as int).priority_spec(),
            forall|k: int| 0 <= k < j && k != i && #[trigger] claims(objs@, ints@, k, t) ==> beats(ints@, i as int, k),
        decreases objs@.len() - j,
    {
        assert(in_bounds(objs@[j as int].0.coords, size as nat));
        if j != i {
            if let Some(tj) = target_exec(objs, ints, j, ActionType::Move) {
                if tj == t {
                    let dj = ints[j].unwrap().direction.priority();
                    if di < dj || (di == dj && i < j) {
                    } else {
                        assert(claims(objs@, ints@, j as int, t));
                        return false;
                    }
                }
            }
        }
        j = j + 1;
    }
    true
}

/// Whether the move of object `i` would pass through a unit coming the other way.
pub fn is_swap_blocked(objs: &ObjMap, ints: &Vec<Option<Action>>, i: usize, size: usize) -> (r: bool)
    requires
        ints@.len() == objs@.len(),
        i < objs@.len(),
        target_of(objs@, ints@, i as int, ActionType::Move) is Some,
        objs_wf(objs@, size as nat),
        size < usize::MAX,
    ensures
        r == swap_blocked(objs@, ints@, i as int),
{
    let t = target_exec(objs, ints, i, ActionType::Move).unwrap();
    let back = ints[i].unwrap().direction.opposite();
    assert(t.0 <= size && t.1 <= size);
    let o = t.add(back);
    let mut j: usize = 0;
    while j < objs.len()
        invariant
            ints@.len() == objs@.len(),
            i < objs@.len(),
            objs_wf(objs@, size as nat),
            size < usize::MAX,
            j <= objs@.len(),
            o == step(target_of(objs@, ints@, i as int, ActionType::Move)->0, dir_of(ints@, i as int).opposite_spec()),
            back == dir_of(ints@, i as int).opposite_spec(),
            forall|k: int| 0 <= k < j && #[trigger] claims(objs@, ints@, k, o) ==> dir_of(ints@, k) != back,
        decreases objs@.len() - j,
    {
        assert(in_bounds(objs@[j as int].0.coords, size as nat));
        if let Some(tj) = target_exec(objs, ints, j, ActionType::Move) {
            if tj == o && ints[j].unwrap().direction == back {
                assert(claims(objs@, ints@, j as int, o));
                return true;
            }
        }
        j = j + 1;
    }
    false
}

/// The grid holds every object but those marked `away`, each on its own cell,
/// and nothing else.
pub open spec fn grid_without(grid: GridMap, objs: Seq<Obj>, away: Seq<bool>) -> bool {
    &&& grid.wf()
    &&& away.len() == objs.len()
    &&& forall|k: int|
        0 <= k < objs.len() && !away[k] ==> grid.at(#[trigger] objs[k].0.coords) == Some(objs[k].0.id)
    &&& forall|k: int| 0 <= k < objs.len() && away[k] ==> grid.at(#[trigger] objs[k].0.coords) is None
    &&& forall|c: Coords|
        #[trigger] grid.at(c) is Some ==> exists|k: int|
            0 <= k < objs.len() && !away[k] && objs[k].0.coords == c
}

pub open spec fn count_true(s: Seq<bool>) -> nat
    decreases s.len(),
{
    if s.len() == 0 {
        0
    } else {
        count_true(s.drop_last()) + if s.last() { 1nat } else { 0nat }
    }
}

proof fn lemma_count_true_clear(s: Seq<bool>, i: int)
    requires
        0 <= i < s.len(),
        s[i],
    ensures
        count_true(s.update(i, false)) + 1 == count_true(s),
    decreases s.len(),
{
    let u = s.update(i, false);
    if i == s.len() - 1 {
        assert(u.drop_last() == s.drop_last());
    } else {
        assert(u.drop_last() == s.drop_last().update(i, false));
        lemma_count_true_clear(s.drop_last(), i);
    }
}

/// Two objects that both move go to different cells.
pub proof fn lemma_movers_distinct_targets(objs: Seq<Obj>, ints: Seq<Option<Action>>, i: int, j: int)
    requires
        mover(objs, ints, i),
        mover(objs, ints, j),
        i != j,
    ensures
        target_of(objs, ints, i, ActionType::Move) != target_of(objs, ints, j, ActionType::Move),
{
    let ti = target_of(objs, ints, i, ActionType::Move)->0;
    let tj = target_of(objs, ints, j, ActionType::Move)->0;
    if ti == tj {
        assert(claims(objs, ints, j, ti));
        assert(claims(objs, ints, i, tj));
    }
}

/// For each object, whether it tries to move this turn.
pub fn mover_flags(objs: &ObjMap, ints: &Vec<Option<Action>>, size: usize) -> (r: Vec<bool>)
    requires
        ints@.len() == objs@.len(),
        objs_wf(objs@, size as nat),
        size < usize::MAX,
    ensures
        r@.len() == objs@.len(),
        forall|k: int| 0 <= k < objs@.len() ==> r@[k] == mover(objs@, ints@, k),
{
    let mut r: Vec<bool> = Vec::new();
    let mut i: usize = 0;
    while i < objs.len()
        invariant
            ints@.len() == objs@.len(),
            objs_wf(objs@, size as nat),
            size < usize::MAX,
            i <= objs@.len(),
            r@.len() == i,
            forall|k: int| 0 <= k < i ==> r@[k] == mover(objs@, ints@, k),
        decreases objs@.len() - i,
    {
        let m = is_elected(objs, ints, i, size) && !is_swap_blocked(objs, ints, i, size);
        r.push(m);
        i = i + 1;
    }
    r
}

/// Takes every object marked in `away` off the grid.
fn evict(objs: &ObjMap, grid: &mut GridMap, away: &Vec<bool>)
    requires
        grid_matches(*old(grid), objs@),
        away@.len() == objs@.len(),
        coords_distinct_in(objs@),
    ensures
        grid_without(*final(grid), objs@, away@),
        final(grid).size == old(grid).size,
{
    proof {
        let none = Seq::new(objs@.len(), |k: int| k < 0 && away@[k]);
        assert forall|c: Coords| #[trigger] grid.at(c) is Some implies exists|k: int|
            0 <= k < objs@.len() && !none[k] && objs@[k].0.coords == c by {
            let k = choose|k: int| 0 <= k < objs@.len() && objs@[k].0.coords == c;
            assert(!none[k]);
        }
    }
    let mut i: usize = 0;
    while i < objs.len()
        invariant
            i <= objs@.len(),
            away@.len() == objs@.len(),
            coords_distinct_in(objs@),
            grid.size == old(grid).size,
            grid_without(*grid, objs@, Seq::new(objs@.len(), |k: int| k < i && away@[k])),
        decreases objs@.len() - i,
    {
        let ghost prev = Seq::new(objs@.len(), |k: int| k < i && away@[k]);
        let ghost next = Seq::new(objs@.len(), |k: int| k < i + 1 && away@[k]);
        if away[i] {
            let ghost before = *grid;
            grid.set(objs[i].0.coords, None);
            proof {
                assert forall|c: Coords| #[trigger] grid.at(c) is Some implies exists|k: int|
                    0 <= k < objs@.len() && !next[k] && objs@[k].0.coords == c by {
                    assert(before.at(c) is Some);
                    let k = choose|k: int| 0 <= k < objs@.len() && !prev[k] && objs@[k].0.coords == c;
                    assert(k != i);
                    assert(!next[k]);
                    assert(0 <= k < objs@.len() && !next[k] && objs@[k].0.coords == c);
                }
                assert forall|k: int| 0 <= k < objs@.len() && !next[k] implies grid.at(
                    #[trigger] objs@[k].0.coords,
                ) == Some(objs@[k].0.id) by {
                    assert(k != i);
                    assert(objs@[k].0.coords != objs@[i as int].0.coords);
                }
                assert forall|k: int| 0 <= k < objs@.len() && next[k] implies grid.at(
                    #[trigger] objs@[k].0.coords,
                ) is None by {
                    if k != i {
                        assert(objs@[k].0.coords != objs@[i as int].0.coords);
                    }
                }
            }
        } else {
            proof {
                assert(next =~= prev);
            }
        }
        i = i + 1;
    }
    proof {
        assert(Seq::new(objs@.len(), |k: int| k < objs@.len() && away@[k]) =~= away@);
    }
}

pub open spec fn coords_distinct_in(objs: Seq<Obj>) -> bool {
    forall|i: int, j: int|
        0 <= i < objs.len() && 0 <= j < objs.len() && i != j ==> objs[i].0.coords
            != objs[j].0.coords
}

/// The target of the move of object `k` is off the grid or taken.
pub open spec fn target_blocked(grid: GridMap, objs: Seq<Obj>, ints: Seq<Option<Action>>, k: int) -> bool {
    let t = target_of(objs, ints, k, ActionType::Move)->0;
    !in_bounds(t, grid.size as nat) || grid.at(t) is Some
}

/// Object `o` standing on cell `t` instead.
pub open spec fn moved_to(o: Obj, t: Coords) -> Obj {
    Obj(crate::types::BasicObj { id: o.0.id, coords: t }, o.1)
}

/// `s` is a set of movers that can all move together: each target is on the
/// grid, and whatever stood on it at the start of the turn is itself in `s`.
pub open spec fn closed_moves(objs: Seq<Obj>, ints: Seq<Option<Action>>, s: Set<int>, size: nat) -> bool {
    forall|k: int|
        #[trigger] s.contains(k) ==> {
            let t = target_of(objs, ints, k, ActionType::Move)->0;
            &&& 0 <= k < objs.len()
            &&& mover(objs, ints, k)
            &&& in_bounds(t, size)
            &&& forall|j: int| 0 <= j < objs.len() && objs[j].0.coords == t ==> s.contains(j)
        }
}

/// The movers that move: those in some set of movers that can all move
/// together (the largest such set).
pub open spec fn greatest_moves(objs: Seq<Obj>, ints: Seq<Option<Action>>, size: nat) -> Set<int> {
    Set::new(|k: int| exists|s: Set<int>| #[trigger] closed_moves(objs, ints, s, size) && s.contains(k))
}

/// Every movable set of movers lies within the marked ones.
pub open spec fn covers_closed(objs: Seq<Obj>, ints: Seq<Option<Action>>, marked: Seq<bool>, size: nat) -> bool {
    forall|s: Set<int>|
        #[trigger] closed_moves(objs, ints, s, size) ==> forall|k: int| s.contains(k) ==> 0 <= k < marked.len() && marked[k]
}

/// Puts back on its cell every waiting mover whose target is off the grid or
/// taken, until every mover still waiting has a free target.
fn settle(objs: &ObjMap, grid: &mut GridMap, pending: &mut Vec<bool>, ints: &Vec<Option<Action>>)
    requires
        grid_without(*old(grid), objs@, old(pending)@),
        objs_wf(objs@, old(grid).size as nat),
        ints@.len() == objs@.len(),
        forall|k: int| 0 <= k < objs@.len() && old(pending)@[k] ==> mover(objs@, ints@, k),
        forall|k: int|
            0 <= k < objs@.len() && mover(objs@, ints@, k) && !old(pending)@[k] ==> target_blocked(
                *old(grid),
                objs@,
                ints@,
                k,
            ),
        covers_closed(objs@, ints@, old(pending)@, old(grid).size as nat),
    ensures
        final(grid).size == old(grid).size,
        covers_closed(objs@, ints@, final(pending)@, old(grid).size as nat),
        forall|k: int| 0 <= k < objs@.len() && final(pending)@[k] ==> old(pending)@[k],
        grid_without(*final(grid), objs@, final(pending)@),
        forall|k: int| 0 <= k < objs@.len() && final(pending)@[k] ==> mover(objs@, ints@, k),
        forall|k: int|
            0 <= k < objs@.len() && mover(objs@, ints@, k) && !final(pending)@[k] ==> target_blocked(
                *final(grid),
                objs@,
                ints@,
                k,
            ),
        forall|k: int|
            0 <= k < objs@.len() && final(pending)@[k] ==> !target_blocked(*final(grid), objs@, ints@, k),
{
    let n = objs.len();
    let size = grid.size;
    loop
        invariant
            n == objs@.len(),
            size == grid.size,
            size == old(grid).size,
            grid_without(*grid, objs@, pending@),
            objs_wf(objs@, size as nat),
            ints@.len() == objs@.len(),
            forall|k: int| 0 <= k < n && pending@[k] ==> mover(objs@, ints@, k),
            forall|k: int| 0 <= k < n && pending@[k] ==> old(pending)@[k],
            forall|k: int|
                0 <= k < n && mover(objs@, ints@, k) && !pending@[k] ==> target_blocked(*grid, objs@, ints@, k),
            covers_closed(objs@, ints@, pending@, size as nat),
        ensures
            forall|k: int| 0 <= k < n && pending@[k] ==> !target_blocked(*grid, objs@, ints@, k),
        decreases count_true(pending@),
    {
        let ghost c0 = count_true(pending@);
        let ghost g0 = *grid;
        let mut changed = false;
        let mut i: usize = 0;
        while i < n
            invariant
                n == objs@.len(),
                i <= n,
                size == grid.size,
                grid_without(*grid, objs@, pending@),
                objs_wf(objs@, size as nat),
                ints@.len() == objs@.len(),
                forall|k: int| 0 <= k < n && pending@[k] ==> mover(objs@, ints@, k),
                forall|k: int| 0 <= k < n && pending@[k] ==> old(pending)@[k],
                forall|k: int|
                    0 <= k < n && mover(objs@, ints@, k) && !pending@[k] ==> target_blocked(*grid, objs@, ints@, k),
                covers_closed(objs@, ints@, pending@, size as nat),
                count_true(pending@) <= c0,
                changed ==> count_true(pending@) < c0,
                !changed ==> *grid == g0,
                !changed ==> forall|k: int| 0 <= k < i && pending@[k] ==> !target_blocked(*grid, objs@, ints@, k),
            decreases n - i,
        {
            if pending[i] {
                assert(in_bounds(objs@[i as int].0.coords, size as nat));
                assert(elected(objs@, ints@, i as int));
                let t = target_exec(objs, ints, i, ActionType::Move).unwrap();
                if !(t.0 < grid.size && t.1 < grid.size) || grid.contains(t) {
                    let ghost gp = *grid;
                    let ghost pp = pending@;
                    proof {
                        assert forall|s: Set<int>| #[trigger] closed_moves(objs@, ints@, s, size as nat) implies !s.contains(
                            i as int,
                        ) by {
                            if s.contains(i as int) {
                                assert(t == target_of(objs@, ints@, i as int, ActionType::Move)->0);
                                assert(in_bounds(t, size as nat));
                                assert(gp.at(t) is Some);
                                let j = choose|j: int| 0 <= j < n && !pp[j] && objs@[j].0.coords == t;
                                assert(s.contains(j));
                            }
                        }
                    }
                    proof {
                        lemma_count_true_clear(pending@, i as int);
                    }
                    pending.set(i, false);
                    proof {
                        assert forall|s: Set<int>| #[trigger] closed_moves(objs@, ints@, s, size as nat) implies forall|k: int|
                            s.contains(k) ==> 0 <= k < pending@.len() && pending@[k] by {
                            assert(!s.contains(i as int));
                            assert forall|k: int| s.contains(k) implies 0 <= k < pending@.len() && pending@[k] by {
                                assert(pp[k]);
                            }
                        }
                    }
                    let o = objs[i];
                    grid.set(o.0.coords, Some(o.0.id));
                    changed = true;
                    proof {
                        assert forall|k: int| 0 <= k < n && mover(objs@, ints@, k) && !pending@[k]
                            implies target_blocked(*grid, objs@, ints@, k) by {
                            if k != i {
                                assert(target_blocked(gp, objs@, ints@, k));
                            }
                        }
                        assert forall|k: int| 0 <= k < n && !pending@[k] implies grid.at(
                            #[trigger] objs@[k].0.coords,
                        ) == Some(objs@[k].0.id) by {
                            if k != i {
                                assert(!pp[k]);
                                assert(objs@[k].0.coords != objs@[i as int].0.coords);
                            }
                        }
                        assert forall|k: int| 0 <= k < n && pending@[k] implies grid.at(
                            #[trigger] objs@[k].0.coords,
                        ) is None by {
                            assert(k != i);
                            assert(pp[k]);
                            assert(objs@[k].0.coords != objs@[i as int].0.coords);
                        }
                        assert forall|c: Coords| #[trigger] grid.at(c) is Some implies exists|k: int|
                            0 <= k < n && !pending@[k] && objs@[k].0.coords == c by {
                            if c == o.0.coords {
                                assert(!pending@[i as int]);
                            } else {
                                assert(gp.at(c) is Some);
                                let k = choose|k: int| 0 <= k < n && !pp[k] && objs@[k].0.coords == c;
                                assert(!pending@[k]);
                            }
                        }
                    }
                }
            }
            i = i + 1;
        }
        if !changed {
            break;
        }
    }
}

/// Moves every waiting mover to its target, which must be free.
fn commit(objs: &mut ObjMap, grid: &mut GridMap, pending: &Vec<bool>, ints: &Vec<Option<Action>>)
    requires
        grid_without(*old(grid), old(objs)@, pending@),
        objs_wf(old(objs)@, old(grid).size as nat),
        ints@.len() == old(objs)@.len(),
        forall|k: int| 0 <= k < old(objs)@.len() && pending@[k] ==> mover(old(objs)@, ints@, k),
        forall|k: int|
            0 <= k < old(objs)@.len() && pending@[k] ==> !target_blocked(*old(grid), old(objs)@, ints@, k),
    ensures
        final(grid).size == old(grid).size,
        final(objs)@.len() == old(objs)@.len(),
        forall|k: int|
            0 <= k < old(objs)@.len() ==> #[trigger] final(objs)@[k] == if pending@[k] {
                moved_to(old(objs)@[k], target_of(old(objs)@, ints@, k, ActionType::Move)->0)
            } else {
                old(objs)@[k]
            },
        grid_matches(*final(grid), final(objs)@),
        objs_wf(final(objs)@, final(grid).size as nat),
{
    let ghost o0 = objs@;
    let ghost g0 = *grid;
    let ghost size = grid.size;
    let n = objs.len();
    let mut i: usize = 0;
    while i < n
        invariant
            n == o0.len(),
            objs@.len() == n,
            i <= n,
            grid.wf(),
            grid.size == size,
            g0.size == size,
            pending@.len() == n,
            objs_wf(o0, size as nat),
            ints@.len() == n,
            forall|k: int| 0 <= k < n && pending@[k] ==> mover(o0, ints@, k),
            forall|k: int| 0 <= k < n && pending@[k] ==> !target_blocked(g0, o0, ints@, k),
            forall|k: int|
                0 <= k < n ==> #[trigger] objs@[k] == if k < i && pending@[k] {
                    moved_to(o0[k], target_of(o0, ints@, k, ActionType::Move)->0)
                } else {
                    o0[k]
                },
            forall|k: int|
                0 <= k < n && (k < i || !pending@[k]) ==> grid.at(#[trigger] objs@[k].0.coords) == Some(
                    objs@[k].0.id,
                ),
            forall|k: int|
                i <= k < n && pending@[k] ==> grid.at(target_of(o0, ints@, k, ActionType::Move)->0)
                    is None,
            forall|c: Coords|
                #[trigger] grid.at(c) is Some ==> exists|k: int|
                    0 <= k < n && (k < i || !pending@[k]) && objs@[k].0.coords == c,
        decreases n - i,
    {
        if pending[i] {
            assert(in_bounds(o0[i as int].0.coords, size as nat));
            assert(elected(o0, ints@, i as int));
            assert(objs@[i as int] == o0[i as int]);
            let t = target_exec(objs, ints, i, ActionType::Move).unwrap();
            assert(t == target_of(o0, ints@, i as int, ActionType::Move)->0);
            assert(!target_blocked(g0, o0, ints@, i as int));
            let o = objs[i];
            let ghost gp = *grid;
            let ghost op = objs@;
            grid.set(t, Some(o.0.id));
            objs.set(i, Obj(crate::types::BasicObj { id: o.0.id, coords: t }, o.1));
            proof {
                assert forall|k: int| 0 <= k < n && (k < i + 1 || !pending@[k]) implies grid.at(
                    #[trigger] objs@[k].0.coords,
                ) == Some(objs@[k].0.id) by {
                    if k != i {
                        assert(op[k] == objs@[k]);
                        assert(gp.at(op[k].0.coords) is Some);
                    }
                }
                assert forall|k: int|
                    i + 1 <= k < n && pending@[k] implies grid.at(
                        target_of(o0, ints@, k, ActionType::Move)->0,
                    ) is None by {
                    lemma_movers_distinct_targets(o0, ints@, i as int, k);
                }
                assert forall|c: Coords| #[trigger] grid.at(c) is Some implies exists|k: int|
                    0 <= k < n && (k < i + 1 || !pending@[k]) && objs@[k].0.coords == c by {
                    if c == t {
                        assert(objs@[i as int].0.coords == c);
                    } else {
                        assert(gp.at(c) is Some);
                        let k = choose|k: int|
                            0 <= k < n && (k < i || !pending@[k]) && op[k].0.coords == c;
                        assert(k != i);
                        assert(objs@[k] == op[k]);
                    }
                }
            }
        }
        i = i + 1;
    }
    proof {
        assert forall|a: int, b: int|
            0 <= a < n && 0 <= b < n && a != b implies objs@[a].0.coords != objs@[b].0.coords by {
            assert(grid.at(objs@[a].0.coords) == Some(objs@[a].0.id));
            assert(grid.at(objs@[b].0.coords) == Some(objs@[b].0.id));
            assert(objs@[a].0.id == o0[a].0.id);
            assert(objs@[b].0.id == o0[b].0.id);
            if a < b {
                assert(o0[a].0.id.0 < o0[b].0.id.0);
            } else {
                assert(o0[b].0.id.0 < o0[a].0.id.0);
            }
        }
        assert forall|a: int, b: int| 0 <= a < b < n implies objs@[a].0.id.0 < objs@[b].0.id.0 by {
            assert(objs@[a].0.id == o0[a].0.id);
            assert(objs@[b].0.id == o0[b].0.id);
        }
        assert forall|k: int| 0 <= k < n implies in_bounds(#[trigger] objs@[k].0.coords, size as nat) by {
            assert(objs@[k] == objs@[k]);
            if pending@[k] {
                assert(!target_blocked(g0, o0, ints@, k));
            } else {
                assert(in_bounds(o0[k].0.coords, size as nat));
            }
        }
        assert forall|k: int| 0 <= k < n implies crate::world::unit_healthy(#[trigger] objs@[k]) by {
            assert(objs@[k] == objs@[k]);
            assert(crate::world::unit_healthy(o0[k]));
        }
    }
}

/// Settles the moves of the objects marked in `pending`, which are off the
/// grid: a mover whose target is off the grid or taken goes back to its cell,
/// until the rest can all move, and then they do. Returns which objects moved.
pub fn update_grid_with_movement(
    objs: &mut ObjMap,
    grid: &mut GridMap,
    pending: Vec<bool>,
    ints: &Vec<Option<Action>>,
) -> (moved: Vec<bool>)
    requires
        grid_without(*old(grid), old(objs)@, pending@),
        objs_wf(old(objs)@, old(grid).size as nat),
        ints@.len() == old(objs)@.len(),
        forall|k: int| 0 <= k < old(objs)@.len() && pending@[k] ==> mover(old(objs)@, ints@, k),
        forall|k: int|
            0 <= k < old(objs)@.len() && mover(old(objs)@, ints@, k) && !pending@[k]
                ==> target_blocked(*old(grid), old(objs)@, ints@, k),
        covers_closed(old(objs)@, ints@, pending@, old(grid).size as nat),
    ensures
        covers_closed(old(objs)@, ints@, moved@, old(grid).size as nat),
        final(grid).size == old(grid).size,
        moved@.len() == old(objs)@.len(),
        final(objs)@.len() == old(objs)@.len(),
        forall|k: int| 0 <= k < old(objs)@.len() && moved@[k] ==> pending@[k],
        forall|k: int|
            0 <= k < old(objs)@.len() ==> #[trigger] final(objs)@[k] == if moved@[k] {
                moved_to(old(objs)@[k], target_of(old(objs)@, ints@, k, ActionType::Move)->0)
            } else {
                old(objs)@[k]
            },
        forall|k: int|
            0 <= k < old(objs)@.len() && mover(old(objs)@, ints@, k) && !moved@[k]
                ==> target_blocked(*final(grid), old(objs)@, ints@, k),
        grid_matches(*final(grid), final(objs)@),
        objs_wf(final(objs)@, final(grid).size as nat),
{
    let mut pending = pending;
    settle(objs, grid, &mut pending, ints);
    let ghost g1 = *grid;
    let ghost o0 = objs@;
    commit(objs, grid, &pending, ints);
    proof {
        assert forall|k: int|
            0 <= k < o0.len() && mover(o0, ints@, k) && !pending@[k] implies target_blocked(
                *grid,
                o0,
                ints@,
                k,
            ) by {
            assert(target_blocked(g1, o0, ints@, k));
            let t = target_of(o0, ints@, k, ActionType::Move)->0;
            if in_bounds(t, g1.size as nat) {
                let j = choose|j: int| 0 <= j < o0.len() && !pending@[j] && o0[j].0.coords == t;
                assert(objs@[j] == o0[j]);
                assert(grid.at(objs@[j].0.coords) is Some);
            }
        }
    }
    pending
}

/// Carries out the moves of a turn: picks one mover per target cell, drops
/// head-on swaps, and settles the rest.
pub fn apply_movement(objs: &mut ObjMap, grid: &mut GridMap, ints: &Vec<Option<Action>>) -> (moved: Vec<bool>)
    requires
        grid_matches(*old(grid), old(objs)@),
        objs_wf(old(objs)@, old(grid).size as nat),
        ints@.len() == old(objs)@.len(),
    ensures
        final(grid).size == old(grid).size,
        moved@.len() == old(objs)@.len(),
        final(objs)@.len() == old(objs)@.len(),
        forall|k: int| 0 <= k < old(objs)@.len() && moved@[k] ==> mover(old(objs)@, ints@, k),
        forall|k: int|
            0 <= k < old(objs)@.len() ==> #[trigger] final(objs)@[k] == if moved@[k] {
                moved_to(old(objs)@[k], target_of(old(objs)@, ints@, k, ActionType::Move)->0)
            } else {
                old(objs)@[k]
            },
        forall|k: int|
            0 <= k < old(objs)@.len() && mover(old(objs)@, ints@, k) && !moved@[k]
                ==> target_blocked(*final(grid), old(objs)@, ints@, k),
        grid_matches(*final(grid), final(objs)@),
        objs_wf(final(objs)@, final(grid).size as nat),
        forall|k: int| 0 <= k < old(objs)@.len() ==> (moved@[k] <==> greatest_moves(old(objs)@, ints@, old(grid).size as nat).contains(k)),
{
    let size = grid.size;
    let flags = mover_flags(objs, ints, size);
    evict(objs, grid, &flags);
    let ghost o0 = objs@;
    proof {
        assert forall|s: Set<int>| #[trigger] closed_moves(o0, ints@, s, size as nat) implies forall|k: int|
            s.contains(k) ==> 0 <= k < flags@.len() && flags@[k] by {
            assert forall|k: int| s.contains(k) implies 0 <= k < flags@.len() && flags@[k] by {
                assert(mover(o0, ints@, k));
            }
        }
    }
    let moved = update_grid_with_movement(objs, grid, flags, ints);
    proof {
        let n = o0.len();
        let ms = Set::new(|k: int| 0 <= k < n && moved@[k]);
        assert forall|k: int| #[trigger] ms.contains(k) implies {
            let t = target_of(o0, ints@, k, ActionType::Move)->0;
            &&& 0 <= k < o0.len()
            &&& mover(o0, ints@, k)
            &&& in_bounds(t, size as nat)
            &&& forall|j: int| 0 <= j < o0.len() && o0[j].0.coords == t ==> ms.contains(j)
        } by {
            let t = target_of(o0, ints@, k, ActionType::Move)->0;
            assert(objs@[k] == moved_to(o0[k], t));
            assert(in_bounds(objs@[k].0.coords, size as nat));
            assert forall|j: int| 0 <= j < o0.len() && o0[j].0.coords == t implies ms.contains(j) by {
                if !moved@[j] && j != k {
                    assert(objs@[j] == o0[j]);
                    assert(objs@[j].0.coords == objs@[k].0.coords);
                }
            }
        }
        assert(closed_moves(o0, ints@, ms, size as nat));
        assert forall|k: int| 0 <= k < n implies (moved@[k] <==> greatest_moves(o0, ints@, size as nat).contains(k)) by {
            if moved@[k] {
                assert(ms.contains(k));
            }
            if greatest_moves(o0, ints@, size as nat).contains(k) {
                let s = choose|s: Set<int>| #[trigger] closed_moves(o0, ints@, s, size as nat) && s.contains(k);
            }
        }
    }
    moved
}

/// How many times `c` occurs in `s`.
pub open spec fn count_in(s: Seq<Coords>, c: Coords) -> nat
    decreases s.len(),
{
    if s.len() == 0 {
        0
    } else {
        count_in(s.drop_last(), c) + if s.last() == c { 1nat } else { 0nat }
    }
}

fn count_exec(s: &Vec<Coords>, c: Coords) -> (r: usize)
    ensures
        r == count_in(s@, c),
{
    let mut r: usize = 0;
    let mut i: usize = 0;
    while i < s.len()
        invariant
            i <= s@.len(),
            r == count_in(s@.subrange(0, i as int), c),
            r <= i,
        decreases s@.len() - i,
    {
        proof {
            assert(s@.subrange(0, i as int + 1).drop_last() == s@.subrange(0, i as int));
        }
        if s[i] == c {
            r = r + 1;
        }
        i = i + 1;
    }
    proof {
        assert(s@.subrange(0, s@.len() as int) == s@);
    }
    r
}

/// The cells acted on with actions of kind `kind` by the first `n` objects, in order.
pub open spec fn targets_upto(objs: Seq<Obj>, ints: Seq<Option<Action>>, kind: ActionType, n: int) -> Seq<Coords>
    decreases n,
{
    if n <= 0 {
        Seq::empty()
    } else {
        let rest = targets_upto(objs, ints, kind, n - 1);
        match target_of(objs, ints, n - 1, kind) {
            Some(t) => rest.push(t),
            None => rest,
        }
    }
}

/// The cells acted on with actions of kind `kind`, one entry per acting object.
pub fn action_targets(objs: &ObjMap, ints: &Vec<Option<Action>>, kind: ActionType, size: usize) -> (r: Vec<Coords>)
    requires
        ints@.len() == objs@.len(),
        objs_wf(objs@, size as nat),
        size < usize::MAX,
    ensures
        r@ == targets_upto(objs@, ints@, kind, objs@.len() as int),
{
    let mut r: Vec<Coords> = Vec::new();
    let mut i: usize = 0;
    while i < objs.len()
        invariant
            ints@.len() == objs@.len(),
            objs_wf(objs@, size as nat),
            size < usize::MAX,
            i <= objs@.len(),
            r@ == targets_upto(objs@, ints@, kind, i as int),
        decreases objs@.len() - i,
    {
        assert(in_bounds(objs@[i as int].0.coords, size as nat));
        if let Some(t) = target_exec(objs, ints, i, kind) {
            r.push(t);
        }
        i = i + 1;
    }
    r
}

/// What `n` attacks leave of object `o`: nothing if it is a unit they kill.
pub open spec fn hit(o: Obj, n: nat) -> Option<Obj> {
    match o.1 {
        ObjDetails::Unit(u) => if u.health <= n * crate::types::ATTACK_POWER {
            None
        } else {
            Some(
                Obj(
                    o.0,
                    ObjDetails::Unit(
                        crate::types::Unit {
                            health: (u.health - n * crate::types::ATTACK_POWER) as usize,
                            ..u
                        },
                    ),
                ),
            )
        },
        ObjDetails::Terrain(_) => Some(o),
    }
}

/// The objects left after every unit takes one attack per entry of `targets`
/// on its cell.
pub open spec fn after_attack(objs: Seq<Obj>, targets: Seq<Coords>) -> Seq<Obj>
    decreases objs.len(),
{
    if objs.len() == 0 {
        Seq::empty()
    } else {
        let rest = after_attack(objs.drop_last(), targets);
        match hit(objs.last(), count_in(targets, objs.last().0.coords)) {
            Some(o) => rest.push(o),
            None => rest,
        }
    }
}

/// Applies the attacks of a turn: each unit loses one point of health per
/// attack on its cell, and leaves the world when it has none left.
pub fn apply_attacks(objs: &mut ObjMap, grid: &mut GridMap, targets: &Vec<Coords>)
    requires
        grid_matches(*old(grid), old(objs)@),
        objs_wf(old(objs)@, old(grid).size as nat),
    ensures
        final(objs)@ == after_attack(old(objs)@, targets@),
        forall|k: int|
            0 <= k < final(objs)@.len() ==> exists|j: int|
                0 <= j < old(objs)@.len() && (#[trigger] final(objs)@[k]).0 == old(objs)@[j].0,
        final(grid).size == old(grid).size,
        grid_matches(*final(grid), final(objs)@),
        objs_wf(final(objs)@, final(grid).size as nat),
{
    let ghost o0 = objs@;
    let ghost size = grid.size as nat;
    let n = objs.len();
    let mut kept: Vec<Obj> = Vec::new();
    let ghost mut src: Seq<int> = Seq::empty();
    let mut i: usize = 0;
    while i < n
        invariant
            n == o0.len(),
            objs@ == o0,
            i <= n,
            grid.wf(),
            grid.size == size,
            objs_wf(o0, size),
            kept@ == after_attack(o0.subrange(0, i as int), targets@),
            src.len() == kept@.len(),
            forall|k: int| 0 <= k < src.len() ==> 0 <= #[trigger] src[k] < i,
            forall|a: int, b: int| 0 <= a < b < src.len() ==> src[a] < src[b],
            forall|k: int| 0 <= k < src.len() ==> (#[trigger] kept@[k]).0 == o0[src[k]].0,
            forall|k: int| 0 <= k < src.len() ==> crate::world::unit_healthy(#[trigger] kept@[k]),
            forall|k: int| 0 <= k < src.len() ==> grid.at(#[trigger] kept@[k].0.coords) == Some(kept@[k].0.id),
            forall|j: int| i <= j < n ==> grid.at(#[trigger] o0[j].0.coords) == Some(o0[j].0.id),
            forall|c: Coords|
                #[trigger] grid.at(c) is Some ==> (exists|k: int| 0 <= k < src.len() && kept@[k].0.coords == c)
                    || (exists|j: int| i <= j < n && o0[j].0.coords == c),
        decreases n - i,
    {
        proof {
            assert(o0.subrange(0, i as int + 1).drop_last() == o0.subrange(0, i as int));
        }
        let o = objs[i];
        let hits = count_exec(targets, o.0.coords);
        match o.1 {
            ObjDetails::Unit(u) => {
                if u.health <= hits {
                    let ghost gp = *grid;
                    grid.set(o.0.coords, None);
                    proof {
                        assert forall|k: int| 0 <= k < src.len() implies grid.at(
                            #[trigger] kept@[k].0.coords,
                        ) == Some(kept@[k].0.id) by {
                            assert(o0[src[k]].0.coords != o0[i as int].0.coords);
                        }
                        assert forall|j: int| i + 1 <= j < n implies grid.at(#[trigger] o0[j].0.coords)
                            == Some(o0[j].0.id) by {
                            assert(o0[j].0.coords != o0[i as int].0.coords);
                        }
                        assert forall|c: Coords| #[trigger] grid.at(c) is Some implies (exists|k: int|
                            0 <= k < src.len() && kept@[k].0.coords == c) || (exists|j: int|
                            i + 1 <= j < n && o0[j].0.coords == c) by {
                            assert(gp.at(c) is Some);
                            if !(exists|k: int| 0 <= k < src.len() && kept@[k].0.coords == c) {
                                let j = choose|j: int| i <= j < n && o0[j].0.coords == c;
                                assert(j != i);
                            }
                        }
                    }
                } else {
                    let nu = Obj(o.0, ObjDetails::Unit(crate::types::Unit { health: u.health - hits, ..u }));
                    let ghost kp = kept@;
                    kept.push(nu);
                    proof {
                        src = src.push(i as int);
                        let kk = src.len() - 1;
                        assert forall|c: Coords| #[trigger] grid.at(c) is Some implies (exists|k: int|
                            0 <= k < src.len() && kept@[k].0.coords == c) || (exists|j: int|
                            i + 1 <= j < n && o0[j].0.coords == c) by {
                            if exists|k: int| 0 <= k < kp.len() && kp[k].0.coords == c {
                                let k = choose|k: int| 0 <= k < kp.len() && kp[k].0.coords == c;
                                assert(kept@[k] == kp[k]);
                            } else {
                                let j = choose|j: int| i <= j < n && o0[j].0.coords == c;
                                if j == i {
                                    assert(kept@[kk].0.coords == c);
                                }
                            }
                        }
                    }
                }
            },
            ObjDetails::Terrain(_) => {
                let ghost kp = kept@;
                kept.push(o);
                proof {
                    src = src.push(i as int);
                    let kk = src.len() - 1;
                    assert forall|c: Coords| #[trigger] grid.at(c) is Some implies (exists|k: int|
                        0 <= k < src.len() && kept@[k].0.coords == c) || (exists|j: int|
                        i + 1 <= j < n && o0[j].0.coords == c) by {
                        if exists|k: int| 0 <= k < kp.len() && kp[k].0.coords == c {
                            let k = choose|k: int| 0 <= k < kp.len() && kp[k].0.coords == c;
                            assert(kept@[k] == kp[k]);
                        } else {
                            let j = choose|j: int| i <= j < n && o0[j].0.coords == c;
                            if j == i {
                                assert(kept@[kk].0.coords == c);
                            }
                        }
                    }
                }
            },
        }
        i = i + 1;
    }
    proof {
        assert(o0.subrange(0, n as int) == o0);
        assert forall|k: int| 0 <= k < kept@.len() implies exists|j: int|
            0 <= j < o0.len() && (#[trigger] kept@[k]).0 == o0[j].0 by {
            assert(kept@[k].0 == o0[src[k]].0);
        }
        assert forall|a: int, b: int| 0 <= a < b < kept@.len() implies kept@[a].0.id.0 < kept@[b].0.id.0 by {
            assert(kept@[a].0 == o0[src[a]].0);
            assert(kept@[b].0 == o0[src[b]].0);
        }
        assert forall|a: int, b: int|
            0 <= a < kept@.len() && 0 <= b < kept@.len() && a != b implies kept@[a].0.coords
            != kept@[b].0.coords by {
            assert(kept@[a].0 == o0[src[a]].0);
            assert(kept@[b].0 == o0[src[b]].0);
            if a < b {
                assert(src[a] < src[b]);
            } else {
                assert(src[b] < src[a]);
            }
        }
        assert forall|k: int| 0 <= k < kept@.len() implies in_bounds(#[trigger] kept@[k].0.coords, size) by {
            assert(kept@[k].0 == o0[src[k]].0);
            assert(in_bounds(o0[src[k]].0.coords, size));
        }
    }
    *objs = kept;
}

/// What `n` heals make of object `o`: a unit gains one point of health per
/// heal, up to full health.
pub open spec fn healed(o: Obj, n: nat) -> Obj {
    match o.1 {
        ObjDetails::Unit(u) => Obj(
            o.0,
            ObjDetails::Unit(
                crate::types::Unit {
                    health: if u.health + n * crate::types::HEAL_POWER >= crate::types::UNIT_HEALTH {
                        crate::types::UNIT_HEALTH
                    } else {
                        (u.health + n * crate::types::HEAL_POWER) as usize
                    },
                    ..u
                },
            ),
        ),
        ObjDetails::Terrain(_) => o,
    }
}

/// Applies the heals of a turn to the units on the healed cells.
pub fn apply_heals(objs: &mut ObjMap, grid: &GridMap, targets: &Vec<Coords>)
    requires
        grid_matches(*grid, old(objs)@),
        objs_wf(old(objs)@, grid.size as nat),
    ensures
        final(objs)@.len() == old(objs)@.len(),
        forall|k: int|
            0 <= k < old(objs)@.len() ==> #[trigger] final(objs)@[k] == healed(
                old(objs)@[k],
                count_in(targets@, old(objs)@[k].0.coords),
            ),
        forall|k: int| 0 <= k < old(objs)@.len() ==> (#[trigger] final(objs)@[k]).0 == old(objs)@[k].0,
        grid_matches(*grid, final(objs)@),
        objs_wf(final(objs)@, grid.size as nat),
{
    let ghost o0 = objs@;
    let n = objs.len();
    let mut i: usize = 0;
    while i < n
        invariant
            n == o0.len(),
            objs@.len() == n,
            i <= n,
            forall|k: int|
                0 <= k < n ==> #[trigger] objs@[k] == if k < i {
                    healed(o0[k], count_in(targets@, o0[k].0.coords))
                } else {
                    o0[k]
                },
        decreases n - i,
    {
        let o = objs[i];
        let heals = count_exec(targets, o.0.coords);
        if let ObjDetails::Unit(u) = o.1 {
            let h = if heals >= crate::types::UNIT_HEALTH || u.health >= crate::types::UNIT_HEALTH - heals {
                crate::types::UNIT_HEALTH
            } else {
                u.health + heals
            };
            objs.set(i, Obj(o.0, ObjDetails::Unit(crate::types::Unit { health: h, ..u })));
        }
        i = i + 1;
    }
    proof {
        assert forall|k: int| 0 <= k < n implies #[trigger] objs@[k].0 == o0[k].0 by {
            assert(objs@[k] == healed(o0[k], count_in(targets@, o0[k].0.coords)));
        }
        assert forall|k: int| 0 <= k < n implies crate::world::unit_healthy(#[trigger] objs@[k]) by {
            assert(objs@[k] == healed(o0[k], count_in(targets@, o0[k].0.coords)));
            assert(crate::world::unit_healthy(o0[k]));
        }
        assert forall|k: int| 0 <= k < n implies grid.at(#[trigger] objs@[k].0.coords) == Some(objs@[k].0.id) by {
            assert(objs@[k].0 == o0[k].0);
        }
        assert forall|c: Coords| #[trigger] grid.at(c) is Some implies exists|k: int|
            0 <= k < n && objs@[k].0.coords == c by {
            let k = choose|k: int| 0 <= k < n && o0[k].0.coords == c;
            assert(objs@[k].0 == o0[k].0);
        }
        assert forall|a: int, b: int|
            0 <= a < n && 0 <= b < n && a != b implies objs@[a].0.coords != objs@[b].0.coords by {
            assert(objs@[a].0 == o0[a].0);
            assert(objs@[b].0 == o0[b].0);
        }
        assert forall|a: int, b: int| 0 <= a < b < n implies objs@[a].0.id.0 < objs@[b].0.id.0 by {
            assert(objs@[a].0 == o0[a].0);
            assert(objs@[b].0 == o0[b].0);
        }
        assert forall|k: int| 0 <= k < n implies in_bounds(#[trigger] objs@[k].0.coords, grid.size as nat) by {
            assert(objs@[k].0 == o0[k].0);
            assert(in_bounds(o0[k].0.coords, grid.size as nat));
        }
    }
}

/// Two units that step into each other's cell from opposite sides are never
/// movers: neither passes through the other.
pub proof fn lemma_head_on_never_moves(objs: Seq<Obj>, ints: Seq<Option<Action>>, a: int, b: int)
    requires
        0 <= a < objs.len(),
        0 <= b < objs.len(),
        target_of(objs, ints, a, ActionType::Move) == Some(objs[b].0.coords),
        target_of(objs, ints, b, ActionType::Move) == Some(objs[a].0.coords),
        dir_of(ints, b) == dir_of(ints, a).opposite_spec(),
        step(objs[b].0.coords, dir_of(ints, a).opposite_spec()) == objs[a].0.coords,
        step(objs[a].0.coords, dir_of(ints, b).opposite_spec()) == objs[b].0.coords,
    ensures
        !mover(objs, ints, a),
        !mover(objs, ints, b),
{
    assert(dir_of(ints, a) == dir_of(ints, b).opposite_spec());
    let oa = step(target_of(objs, ints, a, ActionType::Move)->0, dir_of(ints, a).opposite_spec());
    assert(oa == objs[a].0.coords);
    assert(claims(objs, ints, b, oa) && dir_of(ints, b) == dir_of(ints, a).opposite_spec());
    assert(swap_blocked(objs, ints, a));
    let ob = step(target_of(objs, ints, b, ActionType::Move)->0, dir_of(ints, b).opposite_spec());
    assert(ob == objs[b].0.coords);
    assert(claims(objs, ints, a, ob) && dir_of(ints, a) == dir_of(ints, b).opposite_spec());
    assert(swap_blocked(objs, ints, b));
}

} // verus!
