use vstd::prelude::*;

use crate::driver::{
    find_obj, is_id_valid, validate_robot_action, validated, CallbackInput, ProgramInput,
    StateForProgramInput, TurnState,
};
use crate::grid::GridMap;
use crate::types::{
    DebugTable, Id, Obj, ObjDetails, ProgramOutput, Team,
};
use crate::world::ObjMap;

verus! {

pub(crate) fn copy_objs(v: &ObjMap) -> (r: ObjMap)
    ensures
        r@ == v@,
{
    let mut r: ObjMap = Vec::new();
    let mut i: usize = 0;
    while i < v.len()
        invariant
            i <= v@.len(),
            r@ == v@.subrange(0, i as int),
        decreases v@.len() - i,
    {
        r.push(v[i]);
        i = i + 1;
    }
    proof {
        assert(v@.subrange(0, v@.len() as int) == v@);
    }
    r
}

fn copy_grid(g: &GridMap) -> (r: GridMap)
    ensures
        r.size == g.size,
        r.cells@ == g.cells@,
{
    let mut cells: Vec<Option<Id>> = Vec::new();
    let mut i: usize = 0;
    while i < g.cells.len()
        invariant
            i <= g.cells@.len(),
            cells@ == g.cells@.subrange(0, i as int),
        decreases g.cells@.len() - i,
    {
        cells.push(g.cells[i]);
        i = i + 1;
    }
    proof {
        assert(g.cells@.subrange(0, g.cells@.len() as int) == g.cells@);
    }
    GridMap { size: g.size, cells }
}

impl ProgramInput {
    /// What `team`'s program sees at the start of the turn: the objects, the
    /// grid, each team's unit ids, and the turn number.
    pub fn new(turn_state: &TurnState, all_teams: &Vec<Team>, team: Team, grid_size: usize) -> (r: ProgramInput)
        ensures
            r.state.objs@ == turn_state.state.objs@,
            r.state.grid.size == turn_state.state.grid.size,
            r.state.grid.cells@ == turn_state.state.grid.cells@,
            r.state.teams@.len() == all_teams@.len(),
            forall|t: int|
                0 <= t < all_teams@.len() ==> (#[trigger] r.state.teams@[t]).0 == all_teams@[t]
                    && r.state.teams@[t].1@ == crate::world::team_ids(turn_state.state.objs@, all_teams@[t]),
            r.state.turn == turn_state.turn,
            r.team == team,
            r.grid_size == grid_size,
    {
        let teams = crate::world::create_team_map(&turn_state.state.objs, all_teams);
        ProgramInput {
            state: StateForProgramInput {
                objs: copy_objs(&turn_state.state.objs),
                grid: copy_grid(&turn_state.state.grid),
                teams,
                turn: turn_state.turn,
            },
            grid_size,
            team,
        }
    }
}

/// Every id of `tables` is one of `team`'s units.
pub open spec fn tables_valid(tables: Seq<(Id, DebugTable)>, team: Team, objs: Seq<Obj>) -> bool {
    forall|k: int|
        0 <= k < tables.len() ==> (find_obj(objs, (#[trigger] tables[k]).0) matches Some(o) && o.1 matches ObjDetails::Unit(u)
            && u.team == team)
}

/// Adds one team's output to the turn record: its actions, validated, after
/// those already there; its logs; and, in dev mode, its inspections and its
/// debug tables, the latter only if they name none but the team's own units.
pub fn merge_output(turn: &mut CallbackInput, team: Team, out: ProgramOutput, objs: &ObjMap, dev_mode: bool)
    requires
        crate::world::ids_increasing(objs@),
    ensures
        final(turn).state == old(turn).state,
        final(turn).robot_actions@.len() == old(turn).robot_actions@.len() + out.robot_actions@.len(),
        forall|k: int| 0 <= k < old(turn).robot_actions@.len() ==> final(turn).robot_actions@[k] == old(turn).robot_actions@[k],
        forall|k: int|
            0 <= k < out.robot_actions@.len() ==> {
                let e = #[trigger] final(turn).robot_actions@[old(turn).robot_actions@.len() + k];
                e.0 == out.robot_actions@[k].0 && validated(out.robot_actions@[k].1, team, e.0, objs@, e.1)
            },
        final(turn).logs@ == old(turn).logs@.push((team, out.logs)),
        dev_mode ==> final(turn).debug_inspections@ == old(turn).debug_inspections@.push((team, out.debug_inspections)),
        !dev_mode ==> final(turn).debug_inspections@ == old(turn).debug_inspections@,
        (dev_mode && tables_valid(out.debug_tables@, team, objs@)) ==> final(turn).debug_tables@ == old(turn).debug_tables@ + out.debug_tables@,
        !(dev_mode && tables_valid(out.debug_tables@, team, objs@)) ==> final(turn).debug_tables@ == old(turn).debug_tables@,
{
    let ProgramOutput { robot_actions, logs, debug_tables, debug_inspections } = out;
    let ghost acts = robot_actions@;
    let ghost n0 = turn.robot_actions@.len();
    let mut rest = robot_actions;
    let n = rest.len();
    let mut i: usize = 0;
    while rest.len() > 0
        invariant
            n == acts.len(),
            i + rest@.len() == acts.len(),
            rest@ == acts.subrange(i as int, acts.len() as int),
            crate::world::ids_increasing(objs@),
            turn.state == old(turn).state,
            turn.logs == old(turn).logs,
            turn.debug_tables == old(turn).debug_tables,
            turn.debug_inspections == old(turn).debug_inspections,
            turn.robot_actions@.len() == n0 + i,
            n0 == old(turn).robot_actions@.len(),
            forall|k: int| 0 <= k < n0 ==> turn.robot_actions@[k] == old(turn).robot_actions@[k],
            forall|k: int|
                0 <= k < i ==> {
                    let e = #[trigger] turn.robot_actions@[n0 + k];
                    e.0 == acts[k].0 && validated(acts[k].1, team, e.0, objs@, e.1)
                },
        decreases rest@.len(),
    {
        let (id, a) = rest.remove(0);
        let v = validate_robot_action(a, team, id, objs);
        turn.robot_actions.push((id, v));
        proof {
            assert(acts[i as int] == (id, a));
            assert(rest@ =~= acts.subrange(i + 1, acts.len() as int));
        }
        i = i + 1;
    }
    turn.logs.push((team, logs));
    if dev_mode {
        turn.debug_inspections.push((team, debug_inspections));
        let mut all_valid = true;
        let mut k: usize = 0;
        while k < debug_tables.len()
            invariant
                k <= debug_tables@.len(),
                crate::world::ids_increasing(objs@),
                all_valid == tables_valid(debug_tables@.subrange(0, k as int), team, objs@),
            decreases debug_tables@.len() - k,
        {
            let ok = is_id_valid(team, debug_tables[k].0, objs);
            proof {
                let s1 = debug_tables@.subrange(0, k as int + 1);
                if !ok {
                    assert(s1[k as int] == debug_tables@[k as int]);
                }
                if all_valid && ok {
                    assert forall|j: int| 0 <= j < s1.len() implies (find_obj(objs@, (#[trigger] s1[j]).0) matches Some(o)
                        && o.1 matches ObjDetails::Unit(u) && u.team == team) by {
                        if j < k {
                            assert(s1[j] == debug_tables@.subrange(0, k as int)[j]);
                        }
                    }
                }
                if !all_valid {
                    let j = choose|j: int| 0 <= j < k && !(find_obj(objs@, (#[trigger] debug_tables@.subrange(0, k as int)[j]).0) matches Some(o)
                        && o.1 matches ObjDetails::Unit(u) && u.team == team);
                    assert(s1[j] == debug_tables@.subrange(0, k as int)[j]);
                }
            }
            all_valid = all_valid && ok;
            k = k + 1;
        }
        proof {
            assert(debug_tables@.subrange(0, debug_tables@.len() as int) == debug_tables@);
        }
        if all_valid {
            let mut tables = debug_tables;
            turn.debug_tables.append(&mut tables);
        }
    }
}

} // verus!
