use vstd::prelude::*;

use crate::grid::GridMap;
use crate::state::State;
use crate::types::{
    ActionResult, DebugTable, Id, Obj, ObjDetails, ProgramError, RobotErrorAfterValidation, Team,
    ValidatedRobotAction,
};
use crate::world::{has_id, ObjMap};

verus! {

/// The world as recorded for one turn.
#[derive(Debug, Clone)]
pub struct StateForOutput {
    pub objs: ObjMap,
    pub turn: usize,
}

/// Everything that happened in one turn, as handed to the turn callback.
#[derive(Debug)]
pub struct CallbackInput {
    pub state: StateForOutput,
    pub robot_actions: Vec<(Id, ValidatedRobotAction)>,
    pub logs: Vec<(Team, Vec<String>)>,
    pub debug_tables: Vec<(Id, DebugTable)>,
    pub debug_inspections: Vec<(Team, Vec<Id>)>,
}

/// The result of a match.
#[derive(Debug)]
pub struct MainOutput {
    pub winner: Option<Team>,
    pub errors: Vec<(Team, ProgramError)>,
    pub turns: Vec<CallbackInput>,
}

pub struct TurnState {
    pub turn: usize,
    pub state: State,
}

/// What a team's program is shown at the start of a turn.
#[derive(Debug, Clone)]
pub struct StateForProgramInput {
    pub objs: ObjMap,
    pub grid: GridMap,
    pub teams: Vec<(Team, Vec<Id>)>,
    pub turn: usize,
}

#[derive(Debug, Clone)]
pub struct ProgramInput {
    pub state: StateForProgramInput,
    pub grid_size: usize,
    pub team: Team,
}

pub open spec fn find_obj(objs: Seq<Obj>, id: Id) -> Option<Obj> {
    if has_id(objs, id) {
        Some(objs[choose|i: int| 0 <= i < objs.len() && objs[i].0.id == id])
    } else {
        None
    }
}

/// `r` is what validation makes of the action `a` that `team` gave for `id`:
/// a program error passes through; an action is kept only for an existing
/// unit of `team`, and otherwise becomes an invalid action saying why.
#[verifier::opaque]
pub open spec fn validated(
    a: ActionResult,
    team: Team,
    id: Id,
    objs: Seq<Obj>,
    r: ValidatedRobotAction,
) -> bool {
    match a {
        Err(e) => r == Err::<Option<crate::types::Action>, _>(RobotErrorAfterValidation::RuntimeError(e)),
        Ok(act) => match find_obj(objs, id) {
            None => r matches Err(RobotErrorAfterValidation::InvalidAction(m)) && m@
                == "Action ID points to nonexistent object"@,
            Some(o) => match o.1 {
                ObjDetails::Terrain(_) => r matches Err(RobotErrorAfterValidation::InvalidAction(m))
                    && m@ == "Action ID points to terrain"@,
                ObjDetails::Unit(u) => if u.team != team {
                    r matches Err(RobotErrorAfterValidation::InvalidAction(m)) && m@
                        == "Action ID points to unit on other team"@
                } else {
                    r == Ok::<_, RobotErrorAfterValidation>(act)
                },
            },
        },
    }
}

proof fn lemma_find_obj(objs: Seq<Obj>, i: int)
    requires
        0 <= i < objs.len(),
        crate::world::ids_increasing(objs),
    ensures
        find_obj(objs, objs[i].0.id) == Some(objs[i]),
{
    assert(has_id(objs, objs[i].0.id));
    let j = choose|j: int| 0 <= j < objs.len() && objs[j].0.id == objs[i].0.id;
    if j != i {
        assert(objs[j].0.id.0 != objs[i].0.id.0);
    }
}

/// Checks the action a team gave for `id` against the world.
pub fn validate_robot_action(action: ActionResult, team: Team, id: Id, objs: &ObjMap) -> (r: ValidatedRobotAction)
    requires
        crate::world::ids_increasing(objs@),
    ensures
        validated(action, team, id, objs@, r),
{
    reveal(validated);
    match action {
        Err(e) => Err(RobotErrorAfterValidation::RuntimeError(e)),
        Ok(a) => match crate::world::find_index(objs, id) {
            None => Err(RobotErrorAfterValidation::InvalidAction("Action ID points to nonexistent object".to_owned())),
            Some(i) => {
                proof {
                    lemma_find_obj(objs@, i as int);
                }
                match objs[i].1 {
                    ObjDetails::Terrain(_) => Err(
                        RobotErrorAfterValidation::InvalidAction("Action ID points to terrain".to_owned()),
                    ),
                    ObjDetails::Unit(u) => {
                        if u.team != team {
                            Err(RobotErrorAfterValidation::InvalidAction("Action ID points to unit on other team".to_owned()))
                        } else {
                            Ok(a)
                        }
                    },
                }
            },
        },
    }
}

/// Whether `id` is one of `team`'s units.
pub fn is_id_valid(team: Team, id: Id, objs: &ObjMap) -> (r: bool)
    requires
        crate::world::ids_increasing(objs@),
    ensures
        r == (find_obj(objs@, id) matches Some(o) && o.1 matches ObjDetails::Unit(u) && u.team == team),
{
    match crate::world::find_index(objs, id) {
        None => false,
        Some(i) => {
            proof {
                lemma_find_obj(objs@, i as int);
            }
            match objs[i].1 {
                ObjDetails::Unit(u) => u.team == team,
                ObjDetails::Terrain(_) => false,
            }
        },
    }
}

pub open spec fn has_team(errors: Seq<(Team, ProgramError)>, t: Team) -> bool {
    exists|i: int| 0 <= i < errors.len() && errors[i].0 == t
}

/// The teams of `all` that did not fail, in order.
pub open spec fn survivors(all: Seq<Team>, errors: Seq<(Team, ProgramError)>) -> Seq<Team>
    decreases all.len(),
{
    if all.len() == 0 {
        Seq::empty()
    } else {
        let rest = survivors(all.drop_last(), errors);
        if has_team(errors, all.last()) {
            rest
        } else {
            rest.push(all.last())
        }
    }
}

/// After failures, the one team that did not fail wins; otherwise no one.
pub open spec fn walkover_winner(all: Seq<Team>, errors: Seq<(Team, ProgramError)>) -> Option<Team> {
    if survivors(all, errors).len() == 1 {
        Some(survivors(all, errors)[0])
    } else {
        None
    }
}

fn has_team_exec(errors: &Vec<(Team, ProgramError)>, t: Team) -> (r: bool)
    ensures
        r == has_team(errors@, t),
{
    let mut i: usize = 0;
    while i < errors.len()
        invariant
            i <= errors@.len(),
            forall|k: int| 0 <= k < i ==> errors@[k].0 != t,
        decreases errors@.len() - i,
    {
        if errors[i].0 == t {
            return true;
        }
        i = i + 1;
    }
    false
}

/// Ends a match on program failures: the one team that did not fail wins.
pub fn handle_program_errors(
    errors: Vec<(Team, ProgramError)>,
    all_teams: &Vec<Team>,
    turns: Vec<CallbackInput>,
) -> (r: MainOutput)
    ensures
        r.winner == walkover_winner(all_teams@, errors@),
        r.errors@ == errors@,
        r.turns@ == turns@,
{
    let mut count: usize = 0;
    let mut first: Option<Team> = None;
    let mut i: usize = 0;
    while i < all_teams.len()
        invariant
            i <= all_teams@.len(),
            count == survivors(all_teams@.subrange(0, i as int), errors@).len(),
            count <= i,
            count >= 1 ==> first == Some(survivors(all_teams@.subrange(0, i as int), errors@)[0]),
        decreases all_teams@.len() - i,
    {
        proof {
            assert(all_teams@.subrange(0, i as int + 1).drop_last() == all_teams@.subrange(0, i as int));
        }
        let t = all_teams[i];
        if !has_team_exec(&errors, t) {
            if count == 0 {
                first = Some(t);
            }
            count = count + 1;
        }
        i = i + 1;
    }
    proof {
        assert(all_teams@.subrange(0, all_teams@.len() as int) == all_teams@);
    }
    let winner = if count == 1 {
        first
    } else {
        None
    };
    MainOutput { winner, errors, turns }
}

/// Records a failed runner result in `errors`; hands on a success only while
/// no team has failed.
pub fn check_runner_error<T>(
    errors: &mut Vec<(Team, ProgramError)>,
    team: Team,
    result: Result<T, ProgramError>,
) -> (r: Option<T>)
    ensures
        match result {
            Ok(t) => final(errors)@ == old(errors)@ && r == if old(errors)@.len() == 0 {
                Some(t)
            } else {
                None
            },
            Err(e) => final(errors)@ == old(errors)@.push((team, e)) && r is None,
        },
{
    match result {
        Ok(t) => {
            if errors.len() == 0 {
                Some(t)
            } else {
                None
            }
        },
        Err(e) => {
            errors.push((team, e));
            None
        },
    }
}

} // verus!
