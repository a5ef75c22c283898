use vstd::prelude::*;

use crate::driver::{
    check_runner_error, handle_program_errors, validated, walkover_winner, CallbackInput,
    MainOutput, StateForOutput, TurnState,
};
use crate::matches::{copy_objs, merge_output};
use crate::state::turn_resolved;
use crate::types::{
    Action, GameMode, Id, Obj, ProgramError, ProgramResult, RobotErrorAfterValidation, Team,
    ValidatedRobotAction,
};

verus! {

/// The record that closes a match: the final world and turn, with an empty
/// action for every object and no logs.
pub open spec fn is_final_record(r: CallbackInput, objs: Seq<Obj>, turn: usize) -> bool {
    &&& r.state.objs@ == objs
    &&& r.state.turn == turn
    &&& r.robot_actions@.len() == objs.len()
    &&& forall|k: int|
        0 <= k < objs.len() ==> #[trigger] r.robot_actions@[k] == (
            objs[k].0.id,
            Ok::<Option<Action>, RobotErrorAfterValidation>(None),
        )
    &&& r.logs@.len() == 0
    &&& r.debug_tables@.len() == 0
    &&& r.debug_inspections@.len() == 0
}

/// The record that closes a match after its last turn.
pub fn final_record(ts: &TurnState) -> (r: CallbackInput)
    ensures
        is_final_record(r, ts.state.objs@, ts.turn),
{
    let objs = copy_objs(&ts.state.objs);
    let mut robot_actions: Vec<(Id, ValidatedRobotAction)> = Vec::new();
    let mut k: usize = 0;
    while k < objs.len()
        invariant
            k <= objs@.len(),
            robot_actions@.len() == k,
            forall|j: int|
                0 <= j < k ==> #[trigger] robot_actions@[j] == (
                    objs@[j].0.id,
                    Ok::<Option<Action>, RobotErrorAfterValidation>(None),
                ),
        decreases objs@.len() - k,
    {
        robot_actions.push((objs[k].0.id, Ok(None)));
        k = k + 1;
    }
    CallbackInput {
        state: StateForOutput { objs, turn: ts.turn },
        robot_actions,
        logs: Vec::new(),
        debug_tables: Vec::new(),
        debug_inspections: Vec::new(),
    }
}

/// Opens turn `ts.turn`: runs the spawn that is due, if any. On the first turn
/// that is the initial spawn; on a later one the spawn points are cleared of
/// units and the recurrent spawn runs.
pub fn start_turn(ts: &mut TurnState)
    requires
        old(ts).state.wf(),
        old(ts).turn >= 1,
    ensures
        final(ts).state.wf(),
        final(ts).turn == old(ts).turn,
        final(ts).state.grid.size == old(ts).state.grid.size,
        final(ts).state.settings == old(ts).state.settings,
        final(ts).state.spawn_points == old(ts).state.spawn_points,
        !crate::state::spawn_due(&old(ts).state, old(ts).turn as int) ==> final(ts).state.objs@ == old(ts).state.objs@
            && final(ts).state.rng == old(ts).state.rng,
        (old(ts).turn == 1 && old(ts).state.settings.spawn_settings is Some) ==> crate::state::spawn_outcome(
            &old(ts).state,
            &final(ts).state,
            true,
        ) && final(ts).state.objs@.subrange(0, old(ts).state.objs@.len() as int) == old(ts).state.objs@,
{
    match ts.state.spawn_kind(ts.turn) {
        Some(true) => {
            ts.state.spawn_units(true);
        },
        Some(false) => {
            ts.state.clear_spawn();
            ts.state.spawn_units(false);
        },
        None => {},
    }
}

/// The failures among a turn's results, in order.
pub open spec fn errors_in(rs: Seq<(Team, ProgramResult)>) -> Seq<(Team, ProgramError)>
    decreases rs.len(),
{
    if rs.len() == 0 {
        Seq::empty()
    } else {
        let rest = errors_in(rs.drop_last());
        match rs.last().1 {
            Err(e) => rest.push((rs.last().0, e)),
            Ok(_) => rest,
        }
    }
}

/// `acts` is the teams' actions of `rs`, in order, each validated against `objs`.
pub open spec fn merged(rs: Seq<(Team, ProgramResult)>, objs: Seq<Obj>, acts: Seq<(Id, ValidatedRobotAction)>) -> bool
    decreases rs.len(),
{
    if rs.len() == 0 {
        acts.len() == 0
    } else {
        match rs.last().1 {
            Ok(out) => {
                let n = out.robot_actions@.len();
                let n0 = acts.len() - n;
                &&& n0 >= 0
                &&& merged(rs.drop_last(), objs, acts.subrange(0, n0))
                &&& forall|k: int|
                    0 <= k < n ==> (#[trigger] acts[n0 + k]).0 == out.robot_actions@[k].0 && validated(
                        out.robot_actions@[k].1,
                        rs.last().0,
                        acts[n0 + k].0,
                        objs,
                        acts[n0 + k].1,
                    )
            },
            Err(_) => merged(rs.drop_last(), objs, acts),
        }
    }
}

/// Closes turn `ts.turn` with the teams' results, in team order. A failure
/// ends the match by walkover, with the turns recorded so far. Otherwise the
/// turn is recorded (the world before it, and the validated actions) and
/// resolved, and the turn count moves on.
#[verifier::spinoff_prover]
pub fn finish_turn(
    ts: &mut TurnState,
    results: Vec<(Team, ProgramResult)>,
    all_teams: &Vec<Team>,
    dev_mode: bool,
    game_mode: GameMode,
    turns: &mut Vec<CallbackInput>,
) -> (r: Option<MainOutput>)
    requires
        old(ts).state.wf(),
        old(ts).turn < usize::MAX,
    ensures
        r is Some <==> errors_in(results@).len() > 0,
        r matches Some(o) ==> o.winner == walkover_winner(all_teams@, errors_in(results@)) && o.errors@
            == errors_in(results@) && o.turns@ == old(turns)@,
        r is None ==> {
            &&& final(ts).state.wf()
            &&& final(ts).state.grid.size == old(ts).state.grid.size
            &&& final(ts).turn == old(ts).turn + 1
            &&& final(turns)@.len() == old(turns)@.len() + 1
            &&& forall|k: int| 0 <= k < old(turns)@.len() ==> #[trigger] final(turns)@[k] == old(turns)@[k]
            &&& final(turns)@.last().state.objs@ == old(ts).state.objs@
            &&& final(turns)@.last().state.turn == old(ts).turn
            &&& merged(results@, old(ts).state.objs@, final(turns)@.last().robot_actions@)
            &&& turn_resolved(
                old(ts).state.objs@,
                final(turns)@.last().robot_actions@,
                game_mode,
                final(ts).state.objs@,
                old(ts).state.size(),
            )
        },
{
    let ghost r0 = results@;
    let mut errors: Vec<(Team, ProgramError)> = Vec::new();
    let mut turn = CallbackInput {
        state: StateForOutput { objs: copy_objs(&ts.state.objs), turn: ts.turn },
        robot_actions: Vec::new(),
        logs: Vec::new(),
        debug_tables: Vec::new(),
        debug_inspections: Vec::new(),
    };
    let mut rest = results;
    let n = rest.len();
    let mut i: usize = 0;
    while rest.len() > 0
        invariant
            n == r0.len(),
            i + rest@.len() == r0.len(),
            rest@ == r0.subrange(i as int, r0.len() as int),
            errors@ == errors_in(r0.subrange(0, i as int)),
            errors@.len() == 0 ==> merged(r0.subrange(0, i as int), ts.state.objs@, turn.robot_actions@),
            ts.state.wf(),
            *ts == *old(ts),
            turn.state.objs@ == ts.state.objs@,
            turn.state.turn == ts.turn,
        decreases rest@.len(),
    {
        proof {
            assert(r0.subrange(0, i as int + 1).drop_last() == r0.subrange(0, i as int));
            assert(r0[i as int] == rest@[0]);
        }
        let ghost acts0 = turn.robot_actions@;
        let (team, result) = rest.remove(0);
        proof {
            assert(rest@ =~= r0.subrange(i + 1, r0.len() as int));
        }
        let ghost res = result;
        if let Some(out) = check_runner_error(&mut errors, team, result) {
            merge_output(&mut turn, team, out, &ts.state.objs, dev_mode);
            proof {
                let n0 = acts0.len() as int;
                assert(turn.robot_actions@.subrange(0, n0) =~= acts0);
                assert(r0.subrange(0, i as int + 1).last() == (team, res));
            }
        }
        i = i + 1;
    }
    proof {
        assert(r0.subrange(0, r0.len() as int) == r0);
    }
    if errors.len() > 0 {
        let mut taken: Vec<CallbackInput> = Vec::new();
        std::mem::swap(&mut taken, turns);
        return Some(handle_program_errors(errors, all_teams, taken));
    }
    crate::state::run_turn(&turn.robot_actions, &mut ts.state, game_mode);
    turns.push(turn);
    ts.turn = ts.turn + 1;
    None
}

} // verus!
