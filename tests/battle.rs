use battle_logic::driver::{
    check_runner_error, handle_program_errors, is_id_valid, validate_robot_action, CallbackInput,
    StateForOutput, TurnState,
};
use battle_logic::grid::{new_id, reset_id, GridMap, IdGen};
use battle_logic::matches::merge_output;
use battle_logic::rng::string_to_seed;
use battle_logic::state::{binary_remove, run_turn, InitObj, Settings, SpawnSettings, State};
use battle_logic::types::{
    Action, ActionType, Coords, Direction, Error, GameMode, Id, MapType, Obj, ObjDetails,
    ProgramError, ProgramOutput, RobotErrorAfterValidation, Team, Unit, UnitType,
    ValidatedRobotAction, GRID_SIZE,
};
use battle_logic::driver::ProgramInput;
use battle_logic::framing::{attach_logs, classify_turn_line, init_payload, strip_prefix, take_turn_line, TurnLine};
use battle_logic::turns::{final_record, finish_turn, start_turn};

fn soldier(team: Team, health: usize) -> ObjDetails {
    ObjDetails::Unit(Unit { type_: UnitType::Soldier, team, health })
}

fn world(init: Vec<(Coords, ObjDetails)>) -> State {
    let grid_init = init.into_iter().map(|(c, d)| InitObj(c, d)).collect();
    State::new(
        MapType::Circle,
        GRID_SIZE,
        Settings { grid_init, spawn_settings: None },
        string_to_seed("test"),
    )
}

fn id_at(st: &State, c: Coords) -> Option<Id> {
    st.objs.iter().find(|o| o.0.coords == c).map(|o| o.0.id)
}

fn obj_of(st: &State, id: Id) -> Option<Obj> {
    st.objs.iter().find(|o| o.0.id == id).copied()
}

fn act(id: Id, type_: ActionType, direction: Direction) -> (Id, ValidatedRobotAction) {
    (id, Ok(Some(Action { type_, direction })))
}

fn health(st: &State, id: Id) -> Option<usize> {
    match obj_of(st, id)?.1 {
        ObjDetails::Unit(u) => Some(u.health),
        ObjDetails::Terrain(_) => None,
    }
}

fn assert_grid_consistent(st: &State) {
    for x in 0..GRID_SIZE {
        for y in 0..GRID_SIZE {
            let c = Coords(x, y);
            assert_eq!(st.grid.get(c), id_at(st, c));
        }
    }
    for o in &st.objs {
        if let ObjDetails::Unit(u) = o.1 {
            assert!(u.health >= 1 && u.health <= 5);
        }
    }
}

#[test]
fn tie_break_move() {
    let mut st = world(vec![
        (Coords(5, 5), soldier(Team::Blue, 5)),
        (Coords(7, 5), soldier(Team::Blue, 5)),
    ]);
    let a = id_at(&st, Coords(5, 5)).unwrap();
    let b = id_at(&st, Coords(7, 5)).unwrap();
    let actions = vec![
        act(a, ActionType::Move, Direction::East),
        act(b, ActionType::Move, Direction::West),
    ];
    run_turn(&actions, &mut st, GameMode::Normal);
    assert_eq!(obj_of(&st, a).unwrap().0.coords, Coords(6, 5));
    assert_eq!(obj_of(&st, b).unwrap().0.coords, Coords(7, 5));
    assert_grid_consistent(&st);
}

#[test]
fn swap_rejection() {
    let mut st = world(vec![
        (Coords(4, 4), soldier(Team::Blue, 5)),
        (Coords(5, 4), soldier(Team::Red, 5)),
    ]);
    let a = id_at(&st, Coords(4, 4)).unwrap();
    let b = id_at(&st, Coords(5, 4)).unwrap();
    let before = st.objs.clone();
    let actions = vec![
        act(a, ActionType::Move, Direction::East),
        act(b, ActionType::Move, Direction::West),
    ];
    run_turn(&actions, &mut st, GameMode::Normal);
    assert_eq!(st.objs, before);
    assert_grid_consistent(&st);
}

#[test]
fn lethal_attack() {
    let mut st = world(vec![
        (Coords(3, 3), soldier(Team::Blue, 2)),
        (Coords(4, 3), soldier(Team::Red, 5)),
        (Coords(3, 4), soldier(Team::Red, 5)),
    ]);
    let target = id_at(&st, Coords(3, 3)).unwrap();
    let r1 = id_at(&st, Coords(4, 3)).unwrap();
    let r2 = id_at(&st, Coords(3, 4)).unwrap();
    let actions = vec![
        act(r1, ActionType::Attack, Direction::West),
        act(r2, ActionType::Attack, Direction::North),
    ];
    run_turn(&actions, &mut st, GameMode::Normal);
    assert!(obj_of(&st, target).is_none());
    assert_eq!(st.grid.get(Coords(3, 3)), None);
    assert_grid_consistent(&st);
}

#[test]
fn move_into_wall_is_dropped() {
    let mut st = world(vec![(Coords(9, 1), soldier(Team::Blue, 5))]);
    let a = id_at(&st, Coords(9, 1)).unwrap();
    let wall = id_at(&st, Coords(9, 0)).unwrap();
    run_turn(&vec![act(a, ActionType::Move, Direction::North)], &mut st, GameMode::Normal);
    assert_eq!(obj_of(&st, a).unwrap().0.coords, Coords(9, 1));
    assert_eq!(st.grid.get(Coords(9, 0)), Some(wall));
    assert_grid_consistent(&st);
}

#[test]
fn chain_moves_commit() {
    let mut st = world(vec![
        (Coords(5, 8), soldier(Team::Blue, 5)),
        (Coords(6, 8), soldier(Team::Blue, 5)),
    ]);
    let a = id_at(&st, Coords(5, 8)).unwrap();
    let b = id_at(&st, Coords(6, 8)).unwrap();
    let actions = vec![
        act(a, ActionType::Move, Direction::East),
        act(b, ActionType::Move, Direction::East),
    ];
    run_turn(&actions, &mut st, GameMode::Normal);
    assert_eq!(obj_of(&st, a).unwrap().0.coords, Coords(6, 8));
    assert_eq!(obj_of(&st, b).unwrap().0.coords, Coords(7, 8));
    assert_grid_consistent(&st);
}

#[test]
fn blocked_move_stays() {
    let mut st = world(vec![
        (Coords(5, 8), soldier(Team::Blue, 5)),
        (Coords(6, 8), soldier(Team::Red, 5)),
    ]);
    let a = id_at(&st, Coords(5, 8)).unwrap();
    run_turn(&vec![act(a, ActionType::Move, Direction::East)], &mut st, GameMode::Normal);
    assert_eq!(obj_of(&st, a).unwrap().0.coords, Coords(5, 8));
}

#[test]
fn last_health_point_attack() {
    let mut st = world(vec![
        (Coords(8, 8), soldier(Team::Blue, 1)),
        (Coords(9, 8), soldier(Team::Red, 5)),
    ]);
    let target = id_at(&st, Coords(8, 8)).unwrap();
    let r = id_at(&st, Coords(9, 8)).unwrap();
    run_turn(&vec![act(r, ActionType::Attack, Direction::West)], &mut st, GameMode::Normal);
    assert!(obj_of(&st, target).is_none());
    assert_eq!(st.grid.get(Coords(8, 8)), None);
}

#[test]
fn attack_takes_one_point() {
    let mut st = world(vec![
        (Coords(8, 8), soldier(Team::Blue, 4)),
        (Coords(9, 8), soldier(Team::Red, 5)),
    ]);
    let target = id_at(&st, Coords(8, 8)).unwrap();
    let r = id_at(&st, Coords(9, 8)).unwrap();
    run_turn(&vec![act(r, ActionType::Attack, Direction::West)], &mut st, GameMode::Normal);
    assert_eq!(health(&st, target), Some(3));
}

#[test]
fn heal_ignored_in_normal_mode() {
    let mut st = world(vec![
        (Coords(8, 8), soldier(Team::Blue, 3)),
        (Coords(9, 8), soldier(Team::Blue, 5)),
    ]);
    let target = id_at(&st, Coords(8, 8)).unwrap();
    let h = id_at(&st, Coords(9, 8)).unwrap();
    run_turn(&vec![act(h, ActionType::Heal, Direction::West)], &mut st, GameMode::Normal);
    assert_eq!(health(&st, target), Some(3));
    run_turn(&vec![act(h, ActionType::Heal, Direction::West)], &mut st, GameMode::NormalHeal);
    assert_eq!(health(&st, target), Some(4));
}

#[test]
fn heal_caps_at_full_health() {
    let mut st = world(vec![
        (Coords(8, 8), soldier(Team::Blue, 5)),
        (Coords(9, 8), soldier(Team::Blue, 5)),
    ]);
    let target = id_at(&st, Coords(8, 8)).unwrap();
    let h = id_at(&st, Coords(9, 8)).unwrap();
    run_turn(&vec![act(h, ActionType::Heal, Direction::West)], &mut st, GameMode::NormalHeal);
    assert_eq!(health(&st, target), Some(5));
}

#[test]
fn empty_actions_leave_world_unchanged() {
    let mut st = world(vec![
        (Coords(8, 8), soldier(Team::Blue, 3)),
        (Coords(10, 10), soldier(Team::Red, 5)),
    ]);
    let before = st.objs.clone();
    for _ in 0..3 {
        run_turn(&Vec::new(), &mut st, GameMode::Normal);
        assert_eq!(st.objs, before);
    }
    assert_eq!(st.determine_winner(), None);
}

#[test]
fn no_op_match_has_no_winner() {
    let mut st = world(Vec::new());
    let before = st.objs.clone();
    for _ in 0..3 {
        run_turn(&Vec::new(), &mut st, GameMode::Normal);
    }
    assert_eq!(st.objs, before);
    assert_eq!(st.determine_winner(), None);
}

#[test]
fn winner_has_more_units() {
    let st = world(vec![
        (Coords(8, 8), soldier(Team::Blue, 3)),
        (Coords(10, 10), soldier(Team::Red, 5)),
        (Coords(10, 11), soldier(Team::Red, 5)),
    ]);
    assert_eq!(st.determine_winner(), Some(Team::Red));
}

#[test]
fn walkover_after_init_error() {
    let err = Error { summary: "boom".to_string(), details: None, loc: None };
    let out = handle_program_errors(
        vec![(Team::Blue, ProgramError::InitError(err))],
        &vec![Team::Blue, Team::Red],
        Vec::new(),
    );
    assert_eq!(out.winner, Some(Team::Red));
    assert_eq!(out.errors.len(), 1);
    assert_eq!(out.errors[0].0, Team::Blue);
    assert!(out.turns.is_empty());
}

#[test]
fn timeout_keeps_earlier_turns() {
    let st = world(Vec::new());
    let turn = CallbackInput {
        state: StateForOutput { objs: st.objs.clone(), turn: 1 },
        robot_actions: Vec::new(),
        logs: Vec::new(),
        debug_tables: Vec::new(),
        debug_inspections: Vec::new(),
    };
    let out = handle_program_errors(
        vec![(Team::Red, ProgramError::Timeout(2000))],
        &vec![Team::Blue, Team::Red],
        vec![turn],
    );
    assert_eq!(out.winner, Some(Team::Blue));
    assert!(matches!(out.errors[0].1, ProgramError::Timeout(2000)));
    assert_eq!(out.turns.len(), 1);
}

#[test]
fn both_teams_failing_means_no_winner() {
    let out = handle_program_errors(
        vec![(Team::Blue, ProgramError::NoData), (Team::Red, ProgramError::NoInitError)],
        &vec![Team::Blue, Team::Red],
        Vec::new(),
    );
    assert_eq!(out.winner, None);
}

#[test]
fn runner_errors_are_collected() {
    let mut errors = Vec::new();
    assert_eq!(check_runner_error(&mut errors, Team::Blue, Ok::<u8, ProgramError>(7)), Some(7));
    assert_eq!(check_runner_error(&mut errors, Team::Red, Err::<u8, _>(ProgramError::NoData)), None);
    assert_eq!(errors.len(), 1);
    assert_eq!(check_runner_error(&mut errors, Team::Blue, Ok::<u8, ProgramError>(7)), None);
}

#[test]
fn validation_messages() {
    let st = world(vec![(Coords(8, 8), soldier(Team::Blue, 5))]);
    let unit = id_at(&st, Coords(8, 8)).unwrap();
    let wall = id_at(&st, Coords(0, 0)).unwrap();
    let a = Action { type_: ActionType::Move, direction: Direction::North };
    let msg = |r: ValidatedRobotAction| match r {
        Err(RobotErrorAfterValidation::InvalidAction(m)) => m,
        _ => String::new(),
    };
    assert!(matches!(validate_robot_action(Ok(Some(a)), Team::Blue, unit, &st.objs), Ok(Some(_))));
    assert_eq!(msg(validate_robot_action(Ok(Some(a)), Team::Red, unit, &st.objs)), "Action ID points to unit on other team");
    assert_eq!(msg(validate_robot_action(Ok(Some(a)), Team::Blue, wall, &st.objs)), "Action ID points to terrain");
    assert_eq!(msg(validate_robot_action(Ok(Some(a)), Team::Blue, Id(99999), &st.objs)), "Action ID points to nonexistent object");
    let e = Error { summary: "x".to_string(), details: None, loc: None };
    assert!(matches!(
        validate_robot_action(Err(e), Team::Blue, unit, &st.objs),
        Err(RobotErrorAfterValidation::RuntimeError(_))
    ));
    assert!(is_id_valid(Team::Blue, unit, &st.objs));
    assert!(!is_id_valid(Team::Red, unit, &st.objs));
    assert!(!is_id_valid(Team::Blue, wall, &st.objs));
}

#[test]
fn merge_drops_foreign_debug_tables() {
    let st = world(vec![
        (Coords(8, 8), soldier(Team::Blue, 5)),
        (Coords(10, 10), soldier(Team::Red, 5)),
    ]);
    let blue = id_at(&st, Coords(8, 8)).unwrap();
    let red = id_at(&st, Coords(10, 10)).unwrap();
    let mut turn = CallbackInput {
        state: StateForOutput { objs: st.objs.clone(), turn: 1 },
        robot_actions: Vec::new(),
        logs: Vec::new(),
        debug_tables: Vec::new(),
        debug_inspections: Vec::new(),
    };
    let out = ProgramOutput {
        robot_actions: vec![(blue, Ok(None)), (red, Ok(None))],
        logs: vec!["hi".to_string()],
        debug_tables: vec![(red, vec![("k".to_string(), "v".to_string())])],
        debug_inspections: vec![blue],
    };
    merge_output(&mut turn, Team::Blue, out, &st.objs, true);
    assert_eq!(turn.robot_actions.len(), 2);
    assert!(matches!(turn.robot_actions[0].1, Ok(None)));
    assert!(matches!(turn.robot_actions[1].1, Err(RobotErrorAfterValidation::InvalidAction(_))));
    assert!(turn.debug_tables.is_empty());
    assert_eq!(turn.logs.len(), 1);
    assert_eq!(turn.debug_inspections.len(), 1);
    let own = ProgramOutput {
        robot_actions: Vec::new(),
        logs: Vec::new(),
        debug_tables: vec![(blue, Vec::new())],
        debug_inspections: Vec::new(),
    };
    merge_output(&mut turn, Team::Blue, own, &st.objs, true);
    assert_eq!(turn.debug_tables.len(), 1);
}

fn spawn_settings(initial: usize, recurrent: usize, every: usize) -> Settings {
    Settings {
        grid_init: Vec::new(),
        spawn_settings: Some(SpawnSettings {
            initial_unit_num: initial,
            recurrent_unit_num: recurrent,
            spawn_every: every,
        }),
    }
}

#[test]
fn initial_spawn_is_mirrored() {
    let mut st = State::new(MapType::Circle, GRID_SIZE, spawn_settings(4, 2, 10), string_to_seed("abc"));
    st.spawn_units(true);
    let units: Vec<Obj> = st.objs.iter().filter(|o| matches!(o.1, ObjDetails::Unit(_))).copied().collect();
    assert_eq!(units.len(), 8);
    for u in &units {
        let m = st.mirror_loc(u.0.coords);
        let other = units.iter().find(|v| v.0.coords == m).expect("mirror unit");
        match (u.1, other.1) {
            (ObjDetails::Unit(a), ObjDetails::Unit(b)) => assert_ne!(a.team, b.team),
            _ => panic!("not units"),
        }
        assert!(st.spawn_points.contains(&u.0.coords));
    }
    assert_grid_consistent(&st);
}

#[test]
fn clear_spawn_removes_spawned_units() {
    let mut st = State::new(MapType::Circle, GRID_SIZE, spawn_settings(3, 2, 10), string_to_seed("abc"));
    st.spawn_units(true);
    st.clear_spawn();
    assert!(st.objs.iter().all(|o| matches!(o.1, ObjDetails::Terrain(_))));
    st.spawn_units(false);
    assert_eq!(st.objs.iter().filter(|o| matches!(o.1, ObjDetails::Unit(_))).count(), 4);
}

#[test]
fn same_seed_same_spawns() {
    let mut a = State::new(MapType::Circle, GRID_SIZE, spawn_settings(5, 1, 3), string_to_seed("seed"));
    let mut b = State::new(MapType::Circle, GRID_SIZE, spawn_settings(5, 1, 3), string_to_seed("seed"));
    a.spawn_units(true);
    b.spawn_units(true);
    assert_eq!(a.objs, b.objs);
}

#[test]
fn ids_increase_and_reset() {
    let mut ids = IdGen::new();
    let a = new_id(&mut ids);
    let b = new_id(&mut ids);
    assert_eq!(a, Id(1));
    assert_eq!(b, Id(2));
    reset_id(&mut ids);
    assert_eq!(new_id(&mut ids), Id(1));
}

#[test]
fn circle_map_walls_and_spawn_points() {
    let st = world(Vec::new());
    assert!(id_at(&st, Coords(0, 0)).is_some());
    assert!(id_at(&st, Coords(9, 0)).is_some());
    assert!(id_at(&st, Coords(9, 9)).is_none());
    assert!(!st.spawn_points.is_empty());
    assert!(st.spawn_points.windows(2).all(|w| w[0] < w[1]));
    for p in &st.spawn_points {
        assert!(st.spawn_points.contains(&st.mirror_loc(*p)));
        assert!(id_at(&st, *p).is_none());
    }
    assert!(st.spawn_points.contains(&Coords(9, 1)));
    assert_grid_consistent(&st);
}

#[test]
fn rect_map_walls() {
    let st = State::new(MapType::Rect, 7, Settings { grid_init: Vec::new(), spawn_settings: None }, [0u8; 32]);
    assert_eq!(st.objs.len(), 24);
    assert!(st.spawn_points.contains(&Coords(1, 3)));
    assert!(st.spawn_points.contains(&Coords(5, 3)));
}

#[test]
fn binary_remove_keeps_order() {
    let mut v = vec![Coords(1, 1), Coords(1, 5), Coords(2, 0), Coords(3, 3)];
    binary_remove(&mut v, &Coords(2, 0));
    assert_eq!(v, vec![Coords(1, 1), Coords(1, 5), Coords(3, 3)]);
}

#[test]
fn seed_is_hash_repeated() {
    let s = string_to_seed("hello");
    assert_eq!(&s[0..8], &s[8..16]);
    assert_eq!(&s[0..8], &s[24..32]);
    assert_eq!(s, string_to_seed("hello"));
    assert_ne!(s, string_to_seed("world"));
}

#[test]
fn step_saturates_at_low_edge() {
    assert_eq!(Coords(0, 3).add(Direction::West), Coords(0, 3));
    assert_eq!(Coords(2, 0).add(Direction::North), Coords(2, 0));
    assert_eq!(Coords(2, 2).add(Direction::South), Coords(2, 3));
    assert_eq!(Coords(2, 2).add(Direction::East), Coords(3, 2));
    assert_eq!(Direction::East.opposite(), Direction::West);
    assert!(Direction::North.priority() < Direction::East.priority());
    assert!(Direction::South.priority() < Direction::West.priority());
}

#[test]
fn program_input_shows_teams() {
    let st = world(vec![
        (Coords(8, 8), soldier(Team::Blue, 5)),
        (Coords(10, 10), soldier(Team::Red, 5)),
    ]);
    let blue = id_at(&st, Coords(8, 8)).unwrap();
    let ts = TurnState { turn: 2, state: st };
    let input = ProgramInput::new(&ts, &vec![Team::Blue, Team::Red], Team::Blue, GRID_SIZE);
    assert_eq!(input.state.teams[0], (Team::Blue, vec![blue]));
    assert_eq!(input.state.turn, 2);
    assert_eq!(input.team, Team::Blue);
    let g: &GridMap = &input.state.grid;
    assert_eq!(g.get(Coords(8, 8)), Some(blue));
}

#[test]
fn grid_rows_round_trip() {
    let st = world(vec![(Coords(8, 3), soldier(Team::Blue, 5))]);
    let rows = st.grid.to_rows();
    assert_eq!(rows.len(), GRID_SIZE);
    assert_eq!(rows[3][8], id_at(&st, Coords(8, 3)));
    assert_eq!(rows[8][3], None);
    let back = GridMap::from_rows(&rows, GRID_SIZE);
    for x in 0..GRID_SIZE {
        for y in 0..GRID_SIZE {
            assert_eq!(back.get(Coords(x, y)), st.grid.get(Coords(x, y)));
        }
    }
}

#[test]
fn line_framing() {
    assert_eq!(strip_prefix(b"abcdef", b"abc"), Some(b"def".to_vec()));
    assert_eq!(strip_prefix(b"ab", b"abc"), None);
    assert_eq!(strip_prefix(b"xbcdef", b"abc"), None);
    match classify_turn_line(b"__rr_output:{\"Ok\":null}") {
        TurnLine::Output(rest) => assert_eq!(rest, b"{\"Ok\":null}".to_vec()),
        TurnLine::Log => panic!("expected output"),
    }
    assert!(matches!(classify_turn_line(b"hello"), TurnLine::Log));
    assert_eq!(init_payload(Some(b"__rr_init:{}".as_slice())).unwrap(), b"{}".to_vec());
    assert!(matches!(init_payload(Some(b"oops".as_slice())), Err(ProgramError::NoInitError)));
    assert!(matches!(init_payload(None), Err(ProgramError::NoData)));
}

#[test]
fn rect_spawn_points_are_inner_ring() {
    let st = State::new(MapType::Rect, 5, Settings { grid_init: Vec::new(), spawn_settings: None }, [0u8; 32]);
    assert!(!st.spawn_points.contains(&Coords(1, 0)));
    assert_eq!(st.spawn_points.len(), 8);
    for p in &st.spawn_points {
        assert!(id_at(&st, *p).is_none());
    }
}

#[test]
fn no_pass_through_when_first_claimant_differs() {
    let mut st = world(vec![
        (Coords(6, 5), soldier(Team::Blue, 5)),
        (Coords(6, 4), soldier(Team::Blue, 5)),
        (Coords(5, 5), soldier(Team::Red, 5)),
        (Coords(5, 4), soldier(Team::Red, 5)),
    ]);
    let x = id_at(&st, Coords(6, 5)).unwrap();
    let y = id_at(&st, Coords(6, 4)).unwrap();
    let a = id_at(&st, Coords(5, 5)).unwrap();
    let b = id_at(&st, Coords(5, 4)).unwrap();
    let actions = vec![
        act(x, ActionType::Move, Direction::West),
        act(y, ActionType::Move, Direction::West),
        act(a, ActionType::Move, Direction::North),
        act(b, ActionType::Move, Direction::South),
    ];
    run_turn(&actions, &mut st, GameMode::Normal);
    assert_eq!(obj_of(&st, a).unwrap().0.coords, Coords(5, 5));
    assert_eq!(obj_of(&st, b).unwrap().0.coords, Coords(5, 4));
    assert_grid_consistent(&st);
}

#[test]
fn spawn_cadence() {
    let st = State::new(MapType::Circle, GRID_SIZE, spawn_settings(1, 1, 3), string_to_seed("c"));
    assert_eq!(st.spawn_kind(1), Some(true));
    assert_eq!(st.spawn_kind(2), None);
    assert_eq!(st.spawn_kind(4), Some(false));
    assert_eq!(st.spawn_kind(7), Some(false));
    let none = State::new(MapType::Circle, GRID_SIZE, spawn_settings(1, 1, 0), string_to_seed("c"));
    assert_eq!(none.spawn_kind(4), None);
}

#[test]
fn walls_numbered_in_order() {
    let a = world(Vec::new());
    let b = world(Vec::new());
    for (i, o) in a.objs.iter().enumerate() {
        assert_eq!(o.0.id, Id(i + 1));
    }
    assert!(a.objs.windows(2).all(|w| w[0].0.coords < w[1].0.coords));
    assert_eq!(a.objs, b.objs);
    assert_eq!(a.spawn_points, b.spawn_points);
}

#[test]
fn rotation_commits_all_four() {
    let mut st = world(vec![
        (Coords(5, 5), soldier(Team::Blue, 5)),
        (Coords(6, 5), soldier(Team::Blue, 5)),
        (Coords(6, 6), soldier(Team::Blue, 5)),
        (Coords(5, 6), soldier(Team::Blue, 5)),
    ]);
    let a = id_at(&st, Coords(5, 5)).unwrap();
    let b = id_at(&st, Coords(6, 5)).unwrap();
    let c = id_at(&st, Coords(6, 6)).unwrap();
    let d = id_at(&st, Coords(5, 6)).unwrap();
    let actions = vec![
        act(a, ActionType::Move, Direction::East),
        act(b, ActionType::Move, Direction::South),
        act(c, ActionType::Move, Direction::West),
        act(d, ActionType::Move, Direction::North),
    ];
    run_turn(&actions, &mut st, GameMode::Normal);
    assert_eq!(obj_of(&st, a).unwrap().0.coords, Coords(6, 5));
    assert_eq!(obj_of(&st, b).unwrap().0.coords, Coords(6, 6));
    assert_eq!(obj_of(&st, c).unwrap().0.coords, Coords(5, 6));
    assert_eq!(obj_of(&st, d).unwrap().0.coords, Coords(5, 5));
    assert_grid_consistent(&st);
}

#[test]
fn grid_init_replaces_by_cell() {
    let st = world(vec![
        (Coords(0, 0), soldier(Team::Red, 4)),
        (Coords(8, 8), soldier(Team::Blue, 3)),
        (Coords(8, 8), soldier(Team::Red, 2)),
    ]);
    let walls = world(Vec::new()).objs.len();
    let at_wall = obj_of(&st, id_at(&st, Coords(0, 0)).unwrap()).unwrap();
    assert_eq!(at_wall.1, soldier(Team::Red, 4));
    assert_eq!(at_wall.0.id, Id(walls + 1));
    let at_8 = obj_of(&st, id_at(&st, Coords(8, 8)).unwrap()).unwrap();
    assert_eq!(at_8.1, soldier(Team::Red, 2));
    assert_eq!(at_8.0.id, Id(walls + 3));
    assert_eq!(st.objs.len(), walls + 1);
    assert_grid_consistent(&st);
}

#[test]
fn turn_lines_and_logs() {
    let mut logs = Vec::new();
    assert_eq!(take_turn_line(&mut logs, "hello".to_string()), None);
    assert_eq!(take_turn_line(&mut logs, "__rr_output:{}".to_string()), Some(b"{}".to_vec()));
    assert_eq!(logs, vec!["hello".to_string()]);
    let out = ProgramOutput {
        robot_actions: Vec::new(),
        logs: vec!["own".to_string()],
        debug_tables: Vec::new(),
        debug_inspections: Vec::new(),
    };
    let res = attach_logs(Ok(out), logs);
    assert_eq!(res.unwrap().logs, vec!["own".to_string(), "hello".to_string()]);
    let err = attach_logs(Err(ProgramError::NoData), vec!["x".to_string()]);
    assert!(matches!(err, Err(ProgramError::NoData)));
}

fn empty_output(actions: Vec<(Id, Result<Option<Action>, Error>)>) -> ProgramOutput {
    ProgramOutput { robot_actions: actions, logs: Vec::new(), debug_tables: Vec::new(), debug_inspections: Vec::new() }
}

#[test]
fn no_op_match_through_turn_steps() {
    let mut ts = TurnState { turn: 1, state: world(Vec::new()) };
    let before = ts.state.objs.clone();
    let teams = vec![Team::Blue, Team::Red];
    let mut turns = Vec::new();
    for _ in 0..3 {
        start_turn(&mut ts);
        let results = vec![(Team::Blue, Ok(empty_output(Vec::new()))), (Team::Red, Ok(empty_output(Vec::new())))];
        assert!(finish_turn(&mut ts, results, &teams, false, GameMode::Normal, &mut turns).is_none());
        assert_eq!(ts.state.objs, before);
    }
    assert_eq!(turns.len(), 3);
    assert_eq!(ts.turn, 4);
    let last = final_record(&ts);
    assert_eq!(last.state.turn, 4);
    assert_eq!(last.robot_actions.len(), before.len());
    assert!(last.robot_actions.iter().all(|(_, a)| matches!(a, Ok(None))));
    assert_eq!(ts.state.determine_winner(), None);
}

#[test]
fn timeout_ends_match_through_turn_steps() {
    let mut ts = TurnState { turn: 1, state: world(vec![(Coords(8, 8), soldier(Team::Blue, 5))]) };
    let unit = id_at(&ts.state, Coords(8, 8)).unwrap();
    let teams = vec![Team::Blue, Team::Red];
    let mut turns = Vec::new();
    start_turn(&mut ts);
    let first = vec![
        (Team::Blue, Ok(empty_output(vec![(unit, Ok(Some(Action { type_: ActionType::Move, direction: Direction::East })))]))),
        (Team::Red, Ok(empty_output(Vec::new()))),
    ];
    assert!(finish_turn(&mut ts, first, &teams, false, GameMode::Normal, &mut turns).is_none());
    assert_eq!(obj_of(&ts.state, unit).unwrap().0.coords, Coords(9, 8));
    start_turn(&mut ts);
    let second = vec![(Team::Blue, Ok(empty_output(Vec::new()))), (Team::Red, Err(ProgramError::Timeout(2000)))];
    let out = finish_turn(&mut ts, second, &teams, false, GameMode::Normal, &mut turns).unwrap();
    assert_eq!(out.winner, Some(Team::Blue));
    assert_eq!(out.turns.len(), 1);
    assert!(matches!(out.errors[0], (Team::Red, ProgramError::Timeout(2000))));
}

#[test]
fn start_turn_spawns_on_first_turn() {
    let st = State::new(MapType::Circle, GRID_SIZE, spawn_settings(2, 1, 0), string_to_seed("s"));
    let mut ts = TurnState { turn: 1, state: st };
    start_turn(&mut ts);
    assert_eq!(ts.state.objs.iter().filter(|o| matches!(o.1, ObjDetails::Unit(_))).count(), 4);
    ts.turn = 2;
    let before = ts.state.objs.clone();
    start_turn(&mut ts);
    assert_eq!(ts.state.objs, before);
}
