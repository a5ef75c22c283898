use vstd::prelude::*;

verus! {

/// The side of the square battle grid used by a match.
pub const GRID_SIZE: usize = 19;

/// Health a unit starts with, and the most it can ever have.
pub const UNIT_HEALTH: usize = 5;

/// Health taken from a unit by one attack.
pub const ATTACK_POWER: usize = 1;

/// Health given to a unit by one heal.
pub const HEAL_POWER: usize = 1;

#[derive(Debug, Copy, Clone, PartialEq, Eq, Structural)]
pub enum MapType {
    Rect,
    Circle,
}

/// The two sides of a match. `Blue` orders before `Red`.
#[derive(Debug, Copy, Clone, PartialEq, Eq, Structural, Hash, PartialOrd, Ord)]
pub enum Team {
    Blue,
    Red,
}

#[derive(Debug, Copy, Clone, PartialEq, Eq, Structural)]
pub enum GameMode {
    Normal,
    NormalHeal,
}

/// Identifier of an object, unique within a match.
#[derive(Debug, Copy, Clone, PartialEq, Eq, Structural, Hash, PartialOrd, Ord)]
pub struct Id(pub usize);

/// A cell of the grid: column `0`, row `1`.
#[derive(Debug, Copy, Clone, PartialEq, Eq, Structural, Hash, PartialOrd, Ord)]
pub struct Coords(pub usize, pub usize);

#[derive(Debug, Copy, Clone, PartialEq, Eq, Structural)]
pub enum Direction {
    North,
    South,
    East,
    West,
}

#[derive(Debug, Copy, Clone, PartialEq, Eq, Structural)]
pub enum TerrainType {
    Wall,
}

#[derive(Debug, Copy, Clone, PartialEq, Eq, Structural)]
pub enum UnitType {
    Soldier,
}

#[derive(Debug, Copy, Clone, PartialEq, Eq, Structural)]
pub enum ActionType {
    Move,
    Attack,
    Heal,
}

#[derive(Debug, Copy, Clone, PartialEq, Eq, Structural)]
pub struct Action {
    pub type_: ActionType,
    pub direction: Direction,
}

#[derive(Debug, Copy, Clone, PartialEq, Eq, Structural)]
pub struct Terrain {
    pub type_: TerrainType,
}

#[derive(Debug, Copy, Clone, PartialEq, Eq, Structural)]
pub struct Unit {
    pub type_: UnitType,
    pub team: Team,
    pub health: usize,
}

#[derive(Debug, Copy, Clone, PartialEq, Eq, Structural)]
pub enum ObjDetails {
    Terrain(Terrain),
    Unit(Unit),
}

#[derive(Debug, Copy, Clone, PartialEq, Eq, Structural)]
pub struct BasicObj {
    pub id: Id,
    pub coords: Coords,
}

/// An object of the world: where it is, and what it is.
#[derive(Debug, Copy, Clone, PartialEq, Eq, Structural)]
pub struct Obj(pub BasicObj, pub ObjDetails);

/// A source range: line, then an optional column.
pub type Range = (usize, Option<usize>);

#[derive(Debug, Copy, Clone)]
pub struct ErrorLoc {
    pub start: Range,
    pub end: Option<Range>,
}

/// An error reported by a team's program.
#[derive(Debug, Clone)]
pub struct Error {
    pub summary: String,
    pub details: Option<String>,
    pub loc: Option<ErrorLoc>,
}

/// A fatal failure of a team's program.
#[derive(Debug, Clone)]
pub enum ProgramError {
    InternalError,
    NoData,
    InitError(Error),
    NoInitError,
    DataError(String),
    IO(String),
    /// The per-turn limit, in milliseconds, that was exceeded.
    Timeout(u64),
}

pub type ProgramResult<T = ProgramOutput> = Result<T, ProgramError>;

pub type ActionResult = Result<Option<Action>, Error>;

#[derive(Debug, Clone)]
pub enum RobotErrorAfterValidation {
    RuntimeError(Error),
    InvalidAction(String),
}

pub type ValidatedRobotAction = Result<Option<Action>, RobotErrorAfterValidation>;

/// Key/value pairs a program reports about one of its units.
pub type DebugTable = Vec<(String, String)>;

/// What a team's program returns for one turn.
#[derive(Debug, Clone)]
pub struct ProgramOutput {
    pub robot_actions: Vec<(Id, ActionResult)>,
    pub logs: Vec<String>,
    pub debug_tables: Vec<(Id, DebugTable)>,
    pub debug_inspections: Vec<Id>,
}

impl Direction {
    /// Rank used to break ties between moves: North, East, South, West.
    pub open spec fn priority_spec(self) -> nat {
        match self {
            Direction::North => 1,
            Direction::East => 2,
            Direction::South => 3,
            Direction::West => 4,
        }
    }

    pub open spec fn opposite_spec(self) -> Direction {
        match self {
            Direction::North => Direction::South,
            Direction::South => Direction::North,
            Direction::East => Direction::West,
            Direction::West => Direction::East,
        }
    }

    pub fn priority(self) -> (r: u8)
        ensures
            r as nat == self.priority_spec(),
    {
        match self {
            Direction::North => 1,
            Direction::East => 2,
            Direction::South => 3,
            Direction::West => 4,
        }
    }

    pub fn opposite(self) -> (r: Direction)
        ensures
            r == self.opposite_spec(),
            r.opposite_spec() == self,
    {
        match self {
            Direction::North => Direction::South,
            Direction::South => Direction::North,
            Direction::East => Direction::West,
            Direction::West => Direction::East,
        }
    }
}

/// The cell one step from `c` towards `d`; a step off the low edge stays on it.
pub open spec fn step(c: Coords, d: Direction) -> Coords {
    match d {
        Direction::North => Coords(c.0, if c.1 == 0 { 0 } else { (c.1 - 1) as usize }),
        Direction::South => Coords(c.0, (c.1 + 1) as usize),
        Direction::West => Coords(if c.0 == 0 { 0 } else { (c.0 - 1) as usize }, c.1),
        Direction::East => Coords((c.0 + 1) as usize, c.1),
    }
}

impl Coords {
    /// The neighbouring cell in direction `d`, saturating at the low edges.
    pub fn add(self, d: Direction) -> (r: Coords)
        requires
            self.0 < usize::MAX,
            self.1 < usize::MAX,
        ensures
            r == step(self, d),
    {
        match d {
            Direction::North => Coords(self.0, self.1.saturating_sub(1)),
            Direction::South => Coords(self.0, self.1 + 1),
            Direction::West => Coords(self.0.saturating_sub(1), self.1),
            Direction::East => Coords(self.0 + 1, self.1),
        }
    }
}

impl Obj {
    pub open spec fn is_unit(self) -> bool {
        self.1 is Unit
    }

    pub fn id(&self) -> (r: Id)
        ensures
            r == self.0.id,
    {
        self.0.id
    }

    pub fn coords(&self) -> (r: Coords)
        ensures
            r == self.0.coords,
    {
        self.0.coords
    }

    pub fn details(&self) -> (r: &ObjDetails)
        ensures
            *r == self.1,
    {
        &self.1
    }
}

} // verus!
