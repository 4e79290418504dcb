//! The game: players, actions, legal moves, move application, the end of
//! the game and the static evaluation of a position.

use crate::board::{
    cell_of_index, cells_holding, cells_where, disk_at, grid_of, holds, is_grid,
    lemma_cells_where_bounds, lemma_cells_where_contains, standard_grid, with_content, Board, Cell,
    Direction, Disk, Grid, Position, BOARD_SIZE,
};
use crate::errors::Error;
use crate::rules::{
    after_move, captures, captures_toward, ceiling, disk_count, disks_lead, disks_weight,
    evaluation, floor, game_over, is_captured, is_legal, leader, legal, legal_cells,
    lemma_capture_unique, lemma_compass_complete, lemma_legal_iff_reached, lemma_shift_step,
    lemma_standard_start, lemma_walk_is_short, mobility_lead, mobility_weight, phase_index,
    placement_lead, placement_weight, reaches, total_weight, turn_of, utility_of,
};
use crate::text::push_char;
use vstd::prelude::*;

verus! {

pub const BOT_CHAR: char = 'B';

pub const HUMAN_CHAR: char = 'H';

/// The two sides. The bot plays light, the human dark.
#[derive(Debug, Copy, Clone, PartialEq, Eq, Hash, Structural)]
pub enum Player {
    Bot,
    Human,
}

impl Default for Player {
    fn default() -> (p: Player)
        ensures
            p == Player::Bot,
    {
        Player::Bot
    }
}

impl Player {
    /// The character that stands for the player.
    pub open spec fn symbol(self) -> char {
        match self {
            Player::Bot => BOT_CHAR,
            Player::Human => HUMAN_CHAR,
        }
    }

    /// The other player.
    pub open spec fn spec_opponent(&self) -> Player {
        match *self {
            Player::Bot => Player::Human,
            Player::Human => Player::Bot,
        }
    }

    /// The colour the player moves.
    pub open spec fn spec_disk(&self) -> Disk {
        match *self {
            Player::Bot => Disk::Light,
            Player::Human => Disk::Dark,
        }
    }

    /// The message of the error for a character that names no player.
    pub open spec fn parse_failure(ch: char) -> Seq<char> {
        "Invalid character to parse into a player: "@.push(ch)
    }

    /// Parses `'B'` and `'H'`; every other character is refused.
    pub fn parse(ch: char) -> (r: Result<Player, Error>)
        ensures
            ch == BOT_CHAR ==> r == Ok::<Player, Error>(Player::Bot),
            ch == HUMAN_CHAR ==> r == Ok::<Player, Error>(Player::Human),
            ch != BOT_CHAR && ch != HUMAN_CHAR ==> r is Err && r->Err_0 is ParseError
                && r->Err_0.message() == Player::parse_failure(ch),
    {
        if ch == BOT_CHAR {
            Ok(Player::Bot)
        } else if ch == HUMAN_CHAR {
            Ok(Player::Human)
        } else {
            let mut message = "Invalid character to parse into a player: ".to_owned();
            push_char(&mut message, ch);
            Err(Error::ParseError(message))
        }
    }

    /// The other player.
    #[verifier::when_used_as_spec(spec_opponent)]
    pub fn opponent(&self) -> (p: Player)
        ensures
            p == self.spec_opponent(),
    {
        match *self {
            Player::Bot => Player::Human,
            Player::Human => Player::Bot,
        }
    }

    /// The colour the player moves.
    #[verifier::when_used_as_spec(spec_disk)]
    pub fn disk(&self) -> (d: Disk)
        ensures
            d == self.spec_disk(),
    {
        match *self {
            Player::Bot => Disk::Light,
            Player::Human => Disk::Dark,
        }
    }

    /// The player's textual form: its character alone.
    pub fn to_string(&self) -> (s: String)
        ensures
            s@ == seq![self.symbol()],
    {
        let mut s = String::new();
        push_char(
            &mut s,
            match *self {
                Player::Bot => BOT_CHAR,
                Player::Human => HUMAN_CHAR,
            },
        );
        assert(s@ =~= seq![self.symbol()]);
        s
    }
}

/// A player placing a disk on a position.
#[derive(Debug, Copy, Clone, PartialEq, Eq, Hash, Structural)]
pub struct Action {
    pub player: Player,
    pub placement: Position,
}

impl Default for Action {
    fn default() -> (a: Action)
        ensures
            a == (Action { player: Player::Bot, placement: Position { row: 0, col: 0 } }),
    {
        Action { player: Player::Bot, placement: Position { row: 0, col: 0 } }
    }
}

impl Action {
    /// The action of `player` placing on `placement`.
    pub fn parse(player: Player, placement: Position) -> (a: Action)
        ensures
            a == (Action { player, placement }),
    {
        Action { player, placement }
    }

    /// The action's textual form: that of its placement.
    pub fn to_string(&self) -> (s: String)
        ensures
            s@ == crate::board::position_text(self.placement),
    {
        self.placement.to_string()
    }
}

/// The three stretches of a game, by its turn number.
#[derive(Debug, Copy, Clone, PartialEq, Eq, Hash, Structural)]
pub enum Phase {
    Early,
    Mid,
    End,
}

impl Default for Phase {
    fn default() -> (p: Phase)
        ensures
            p == Phase::Early,
    {
        Phase::Early
    }
}

impl Phase {
    /// The phase of turn `turn`: early before turn 20, mid before turn
    /// 40, end from there on.
    pub open spec fn of_turn(turn: int) -> Phase {
        if turn < 20 {
            Phase::Early
        } else if turn < 40 {
            Phase::Mid
        } else {
            Phase::End
        }
    }

    /// The phase's place in the weight tables.
    pub open spec fn index(self) -> int {
        match self {
            Phase::Early => 0,
            Phase::Mid => 1,
            Phase::End => 2,
        }
    }

    /// The phase of turn `turn`.
    pub fn new(turn: usize) -> (p: Phase)
        ensures
            p == Phase::of_turn(turn as int),
    {
        if turn < 20 {
            Phase::Early
        } else if turn < 40 {
            Phase::Mid
        } else {
            Phase::End
        }
    }

    /// The phase's place in the weight tables.
    pub fn to_index(&self) -> (i: usize)
        ensures
            i == self.index(),
    {
        match *self {
            Phase::Early => 0,
            Phase::Mid => 1,
            _ => 2,
        }
    }
}

/// The disks that placing `own` on `at` captures in direction `dir`,
/// nearest first. The walk collects disks of the other colour; it commits
/// when it meets a disk of `own`, and gives up at an empty cell or at the
/// edge of the board.
pub fn captured_line(board: &Board, own: Disk, at: &Position, dir: Direction) -> (path: Vec<
    Position,
>)
    requires
        at@.on_board(),
    ensures
        forall|i: int| 0 <= i < path@.len() ==> (#[trigger] path@[i])@ == at@.shift(dir, i + 1),
        path@.len() > 0 ==> captures(board@, own, at@, dir, path@.len() as int),
        path@.len() == 0 ==> !captures_toward(board@, own, at@, dir),
{
    let other = match own {
        Disk::Dark => Disk::Light,
        Disk::Light => Disk::Dark,
    };
    let mut path: Vec<Position> = Vec::new();
    let mut walker = board.neighbour(at, dir);
    loop
        invariant
            at@.on_board(),
            other == own.flipped(),
            path@.len() <= 7,
            forall|i: int|
                0 <= i < path@.len() ==> {
                    &&& (#[trigger] path@[i])@ == at@.shift(dir, i + 1)
                    &&& path@[i]@.on_board()
                    &&& disk_at(board@, path@[i]@) == Some(other)
                },
            walker == crate::board::neighbour_of(at@.shift(dir, path@.len() as int), dir),
        decreases 8 - path@.len(),
    {
        let ghost n = path@.len() as int;
        proof {
            lemma_shift_step(at@, dir, n);
            assert forall|i: int| 1 <= i <= n implies (#[trigger] at@.shift(dir, i)).on_board()
                && disk_at(board@, at@.shift(dir, i)) == Some(other) by {
                assert(path@[i - 1]@ == at@.shift(dir, i));
            }
        }
        match walker {
            None => {
                proof {
                    assert forall|k: int| !captures(board@, own, at@, dir, k) by {
                        if captures(board@, own, at@, dir, k) {
                            if k <= n {
                                assert(at@.shift(dir, k + 1).on_board());
                            } else {
                                assert(at@.shift(dir, n + 1).on_board());
                            }
                        }
                    }
                }
                return Vec::new();
            },
            Some(w) => {
                assert(w@ == at@.shift(dir, n + 1));
                let content = board.disk(&w);
                if content == Some(other) {
                    proof {
                        lemma_walk_is_short(at@, dir, n + 1);
                    }
                    path.push(w);
                    walker = board.neighbour(&w, dir);
                } else if content == Some(own) {
                    proof {
                        if n == 0 {
                            assert forall|k: int| !captures(board@, own, at@, dir, k) by {
                                if captures(board@, own, at@, dir, k) {
                                    assert(at@.shift(dir, 1).on_board());
                                }
                            }
                        }
                    }
                    return path;
                } else {
                    proof {
                        assert forall|k: int| !captures(board@, own, at@, dir, k) by {
                            if captures(board@, own, at@, dir, k) {
                                if k <= n {
                                    assert(at@.shift(dir, k + 1).on_board());
                                } else {
                                    assert(at@.shift(dir, n + 1).on_board());
                                }
                            }
                        }
                    }
                    return Vec::new();
                }
            },
        }
    }
}

/// The empty cell that a walk from the disk of colour `own` on `from`
/// comes to in direction `dir`, if it comes to one: the walk goes on
/// while it crosses disks of the other colour, and ends at the first cell
/// that holds none. An empty cell counts if the walk has crossed a disk;
/// a disk of `own` or the edge of the board ends the walk without a cell.
pub fn reached_cell(board: &Board, own: Disk, from: &Position, dir: Direction) -> (end: Option<
    Position,
>)
    requires
        from@.on_board(),
        disk_at(board@, from@) == Some(own),
    ensures
        match end {
            Some(e) => exists|k: int|
                #![trigger reaches(board@, own, from@, dir, k)]
                reaches(board@, own, from@, dir, k) && e@ == from@.shift(dir, k),
            None => forall|k: int| !reaches(board@, own, from@, dir, k),
        },
{
    let other = match own {
        Disk::Dark => Disk::Light,
        Disk::Light => Disk::Dark,
    };
    let mut distance: usize = 1;
    let mut walker = board.neighbour(from, dir);
    loop
        invariant
            from@.on_board(),
            disk_at(board@, from@) == Some(own),
            other == own.flipped(),
            1 <= distance <= 8,
            forall|i: int|
                1 <= i < distance ==> (#[trigger] from@.shift(dir, i)).on_board() && disk_at(
                    board@,
                    from@.shift(dir, i),
                ) == Some(other),
            walker == crate::board::neighbour_of(from@.shift(dir, distance - 1), dir),
        decreases 8 - distance,
    {
        let ghost d = distance as int;
        proof {
            lemma_shift_step(from@, dir, d - 1);
        }
        match walker {
            None => {
                proof {
                    assert forall|k: int| !reaches(board@, own, from@, dir, k) by {
                        if reaches(board@, own, from@, dir, k) {
                            if k < d {
                                assert(from@.shift(dir, k).on_board());
                            } else if k > d {
                                assert(from@.shift(dir, d).on_board());
                            }
                        }
                    }
                }
                return None;
            },
            Some(w) => {
                assert(w@ == from@.shift(dir, d));
                let content = board.disk(&w);
                if content.is_none() {
                    if distance > 1 {
                        assert(reaches(board@, own, from@, dir, d));
                        return Some(w);
                    }
                    proof {
                        assert forall|k: int| !reaches(board@, own, from@, dir, k) by {
                            if reaches(board@, own, from@, dir, k) {
                                assert(from@.shift(dir, 1).on_board());
                            }
                        }
                    }
                    return None;
                }
                if content != Some(other) {
                    proof {
                        assert forall|k: int| !reaches(board@, own, from@, dir, k) by {
                            if reaches(board@, own, from@, dir, k) {
                                if k < d {
                                    assert(from@.shift(dir, k).on_board());
                                } else if k > d {
                                    assert(from@.shift(dir, d).on_board());
                                }
                            }
                        }
                    }
                    return None;
                }
                proof {
                    lemma_walk_is_short(from@, dir, d);
                }
                distance += 1;
                walker = board.neighbour(&w, dir);
            },
        }
    }
}

/// Whether `c` has been reached once the walks from the disks before
/// the `m`-th are done and, from the `m`-th, those in the directions
/// before the `n`-th.
spec fn marked(g: Grid, own: Disk, sources: Seq<Position>, m: int, n: int, c: Cell) -> bool {
    exists|i: int, j: int, k: int|
        #![trigger reaches(g, own, sources[i]@, Direction::compass()[j], k)]
        0 <= i < sources.len() && 0 <= j < 8 && (i < m || (i == m && j < n)) && reaches(
            g,
            own,
            sources[i]@,
            Direction::compass()[j],
            k,
        ) && sources[i]@.shift(Direction::compass()[j], k) == c
}

/// A walk comes to one cell at most.
proof fn lemma_reach_unique(g: Grid, own: Disk, from: Cell, dir: Direction, a: int, b: int)
    requires
        reaches(g, own, from, dir, a),
        reaches(g, own, from, dir, b),
    ensures
        a == b,
{
    if a < b {
        assert(from.shift(dir, a).on_board());
    } else if b < a {
        assert(from.shift(dir, b).on_board());
    }
}

/// One more walk marks the cell it comes to, and no other.
proof fn lemma_mark_walk(
    g: Grid,
    own: Disk,
    sources: Seq<Position>,
    m: int,
    n: int,
    end: Option<Position>,
    c: Cell,
)
    requires
        0 <= m < sources.len(),
        0 <= n < 8,
        match end {
            Some(e) => exists|k: int|
                #![trigger reaches(g, own, sources[m]@, Direction::compass()[n], k)]
                reaches(g, own, sources[m]@, Direction::compass()[n], k) && e@ == sources[m]@.shift(
                    Direction::compass()[n],
                    k,
                ),
            None => forall|k: int| !reaches(g, own, sources[m]@, Direction::compass()[n], k),
        },
    ensures
        marked(g, own, sources, m, n + 1, c) <==> marked(g, own, sources, m, n, c) || (end is Some
            && end->0@ == c),
{
    let dir = Direction::compass()[n];
    if marked(g, own, sources, m, n + 1, c) {
        let (i, j, k) = choose|i: int, j: int, k: int|
            #![trigger reaches(g, own, sources[i]@, Direction::compass()[j], k)]
            0 <= i < sources.len() && 0 <= j < 8 && (i < m || (i == m && j < n + 1)) && reaches(
                g,
                own,
                sources[i]@,
                Direction::compass()[j],
                k,
            ) && sources[i]@.shift(Direction::compass()[j], k) == c;
        if i == m && j == n {
            assert(end is Some);
            let reached = choose|reached: int|
                #![trigger reaches(g, own, sources[m]@, dir, reached)]
                reaches(g, own, sources[m]@, dir, reached) && end->0@ == sources[m]@.shift(
                    dir,
                    reached,
                );
            lemma_reach_unique(g, own, sources[m]@, dir, k, reached);
        } else {
            assert(marked(g, own, sources, m, n, c));
        }
    }
    if marked(g, own, sources, m, n, c) {
        let (i, j, k) = choose|i: int, j: int, k: int|
            #![trigger reaches(g, own, sources[i]@, Direction::compass()[j], k)]
            0 <= i < sources.len() && 0 <= j < 8 && (i < m || (i == m && j < n)) && reaches(
                g,
                own,
                sources[i]@,
                Direction::compass()[j],
                k,
            ) && sources[i]@.shift(Direction::compass()[j], k) == c;
        assert(reaches(g, own, sources[i]@, Direction::compass()[j], k));
        assert(marked(g, own, sources, m, n + 1, c));
    }
    if end is Some && end->0@ == c {
        let reached = choose|reached: int|
            #![trigger reaches(g, own, sources[m]@, dir, reached)]
            reaches(g, own, sources[m]@, dir, reached) && end->0@ == sources[m]@.shift(
                dir,
                reached,
            );
        assert(reaches(g, own, sources[m]@, Direction::compass()[n], reached));
        assert(marked(g, own, sources, m, n + 1, c));
    }
}

/// When the walks in all directions from a disk are done, the disk is
/// done.
proof fn lemma_mark_source(g: Grid, own: Disk, sources: Seq<Position>, m: int, c: Cell)
    requires
        0 <= m < sources.len(),
    ensures
        marked(g, own, sources, m, 8, c) <==> marked(g, own, sources, m + 1, 0, c),
{
    if marked(g, own, sources, m, 8, c) {
        let (i, j, k) = choose|i: int, j: int, k: int|
            #![trigger reaches(g, own, sources[i]@, Direction::compass()[j], k)]
            0 <= i < sources.len() && 0 <= j < 8 && (i < m || (i == m && j < 8)) && reaches(
                g,
                own,
                sources[i]@,
                Direction::compass()[j],
                k,
            ) && sources[i]@.shift(Direction::compass()[j], k) == c;
        assert(reaches(g, own, sources[i]@, Direction::compass()[j], k));
        assert(marked(g, own, sources, m + 1, 0, c));
    }
    if marked(g, own, sources, m + 1, 0, c) {
        let (i, j, k) = choose|i: int, j: int, k: int|
            #![trigger reaches(g, own, sources[i]@, Direction::compass()[j], k)]
            0 <= i < sources.len() && 0 <= j < 8 && (i < m + 1 || (i == m + 1 && j < 0))
                && reaches(g, own, sources[i]@, Direction::compass()[j], k)
                && sources[i]@.shift(Direction::compass()[j], k) == c;
        assert(reaches(g, own, sources[i]@, Direction::compass()[j], k));
        assert(marked(g, own, sources, m, 8, c));
    }
}

/// When the walks from all disks of a colour are done, the marked cells
/// are the legal placements.
proof fn lemma_mark_all(g: Grid, own: Disk, c: Cell)
    ensures
        marked(g, own, cells_holding(g, own), cells_holding(g, own).len() as int, 0, c)
            <==> is_legal(g, own, c),
{
    let sources = cells_holding(g, own);
    lemma_legal_iff_reached(g, own, c);
    lemma_cells_where_bounds(holds(g, own), 64);
    if marked(g, own, sources, sources.len() as int, 0, c) {
        let (i, j, k) = choose|i: int, j: int, k: int|
            #![trigger reaches(g, own, sources[i]@, Direction::compass()[j], k)]
            0 <= i < sources.len() && 0 <= j < 8 && (i < sources.len() || (i == sources.len() && j
                < 0)) && reaches(g, own, sources[i]@, Direction::compass()[j], k)
                && sources[i]@.shift(Direction::compass()[j], k) == c;
        assert(reaches(g, own, sources[i]@, Direction::compass()[j], k));
    }
    if is_legal(g, own, c) {
        let (from, dir, k) = choose|from: Cell, dir: Direction, k: int|
            #![trigger reaches(g, own, from, dir, k)]
            reaches(g, own, from, dir, k) && from.shift(dir, k) == c;
        lemma_cells_where_contains(holds(g, own), from.position());
        assert(from.position()@ == from);
        let i = choose|i: int| 0 <= i < sources.len() && sources[i] == from.position();
        lemma_compass_complete(dir);
        let j = choose|j: int| 0 <= j < 8 && Direction::compass()[j] == dir;
        assert(reaches(g, own, sources[i]@, Direction::compass()[j], k));
    }
}

/// The legal placements for `own` on `board`, in row-major order. From
/// every disk of `own` a walk goes out in every direction, and the empty
/// cells that the walks come to are the legal placements.
pub fn legal_positions(board: &Board, own: Disk) -> (cells: Vec<Position>)
    ensures
        cells@ == legal_cells(board@, own),
{
    let ghost g = board@;
    let sources = board.positions(own);
    let dirs = Direction::all();
    let mut reached = [[false; BOARD_SIZE]; BOARD_SIZE];
    proof {
        lemma_cells_where_bounds(holds(g, own), 64);
    }
    let mut m: usize = 0;
    while m < sources.len()
        invariant
            m <= sources@.len(),
            g == board@,
            sources@ == cells_holding(g, own),
            dirs@ == Direction::compass(),
            forall|i: int|
                0 <= i < sources@.len() ==> (#[trigger] sources@[i])@.on_board() && disk_at(
                    g,
                    sources@[i]@,
                ) == Some(own),
            forall|c: Cell|
                c.on_board() ==> (reached@[c.row]@[c.col] <==> #[trigger] marked(
                    g,
                    own,
                    sources@,
                    m as int,
                    0,
                    c,
                )),
        decreases sources@.len() - m,
    {
        let mut n: usize = 0;
        while n < dirs.len()
            invariant
                m < sources@.len(),
                n <= 8,
                g == board@,
                dirs@ == Direction::compass(),
                forall|i: int|
                    0 <= i < sources@.len() ==> (#[trigger] sources@[i])@.on_board() && disk_at(
                        g,
                        sources@[i]@,
                    ) == Some(own),
                forall|c: Cell|
                    c.on_board() ==> (reached@[c.row]@[c.col] <==> #[trigger] marked(
                        g,
                        own,
                        sources@,
                        m as int,
                        n as int,
                        c,
                    )),
            decreases 8 - n,
        {
            let end = reached_cell(board, own, &sources[m], dirs[n]);
            let ghost before = reached;
            match end {
                Some(e) => {
                    assert(e@.on_board());
                    reached[e.row][e.col] = true;
                },
                None => {},
            }
            proof {
                assert forall|c: Cell| c.on_board() implies (reached@[c.row]@[c.col]
                    <==> #[trigger] marked(g, own, sources@, m as int, n + 1, c)) by {
                    lemma_mark_walk(g, own, sources@, m as int, n as int, end, c);
                    assert(before@[c.row]@[c.col] <==> marked(
                        g,
                        own,
                        sources@,
                        m as int,
                        n as int,
                        c,
                    ));
                }
            }
            n += 1;
        }
        proof {
            assert forall|c: Cell| c.on_board() implies (reached@[c.row]@[c.col]
                <==> #[trigger] marked(g, own, sources@, m + 1, 0, c)) by {
                lemma_mark_source(g, own, sources@, m as int, c);
                assert(reached@[c.row]@[c.col] <==> marked(g, own, sources@, m as int, 8, c));
            }
        }
        m += 1;
    }
    proof {
        assert forall|c: Cell| c.on_board() implies (reached@[c.row]@[c.col]
            <==> #[trigger] is_legal(g, own, c)) by {
            lemma_mark_all(g, own, c);
            assert(reached@[c.row]@[c.col] <==> marked(
                g,
                own,
                sources@,
                sources@.len() as int,
                0,
                c,
            ));
        }
    }
    let mut cells: Vec<Position> = Vec::new();
    let mut k: usize = 0;
    while k < BOARD_SIZE * BOARD_SIZE
        invariant
            k <= 64,
            forall|c: Cell|
                c.on_board() ==> (reached@[c.row]@[c.col] <==> #[trigger] is_legal(g, own, c)),
            cells@ == cells_where(legal(g, own), k as nat),
        decreases 64 - k,
    {
        let pos = Position::new(k / BOARD_SIZE, k % BOARD_SIZE);
        assert(pos == cell_of_index(k as int));
        assert(pos@.on_board());
        if reached[pos.row][pos.col] {
            assert(is_legal(g, own, pos@));
            cells.push(pos);
        } else {
            assert(!is_legal(g, own, pos@));
        }
        k += 1;
    }
    cells
}

const PLACEMENT_WEIGHTS: [i32; 3] = [5, 4, 2];

const MOBILITY_WEIGHTS: [i32; 3] = [5, 4, 3];

const NUM_DISKS_WEIGHTS: [i32; 3] = [-1, -1, 0];

/// The sum of the weights of `cells`.
fn weigh(cells: &Vec<Position>) -> (sum: i32)
    requires
        cells@.len() <= 64,
        forall|i: int| 0 <= i < cells@.len() ==> (#[trigger] cells@[i])@.on_board(),
    ensures
        sum == total_weight(cells@),
        -10 * cells@.len() <= sum <= 100 * cells@.len(),
{
    let mut sum: i32 = 0;
    let mut i: usize = 0;
    while i < cells.len()
        invariant
            i <= cells@.len() <= 64,
            forall|i: int| 0 <= i < cells@.len() ==> (#[trigger] cells@[i])@.on_board(),
            sum == total_weight(cells@.take(i as int)),
            -10 * i <= sum <= 100 * i,
        decreases cells@.len() - i,
    {
        assert(cells@.take(i + 1).drop_last() =~= cells@.take(i as int));
        sum = sum + cells[i].weight();
        i += 1;
    }
    assert(cells@.take(cells@.len() as int) =~= cells@);
    sum
}

/// What a game is, to its callers.
pub struct Situation {
    /// What the board holds.
    pub grid: Grid,
    /// The player to move.
    pub to_move: Player,
    /// The phase that the game records.
    pub phase: Phase,
    /// The winner that the game records.
    pub winner: Option<Player>,
}

/// The game on `grid` with `to_move` to move. It records the phase of
/// the grid's turn, and a winner exactly when the grid leaves neither
/// player a move and one of them leads.
pub open spec fn situation(grid: Grid, to_move: Player) -> Situation {
    Situation {
        grid,
        to_move,
        phase: Phase::of_turn(turn_of(grid)),
        winner: if game_over(grid) {
            leader(grid)
        } else {
            None
        },
    }
}

/// The state of a game.
#[derive(Clone, Copy, PartialEq, Eq, Hash)]
pub struct Game {
    board: Board,
    current_player: Player,
    phase: Phase,
    winner: Option<Player>,
}

impl View for Game {
    type V = Situation;

    closed spec fn view(&self) -> Situation {
        Situation {
            grid: self.board@,
            to_move: self.current_player,
            phase: self.phase,
            winner: self.winner,
        }
    }
}

impl Default for Game {
    fn default() -> (g: Game)
        ensures
            g@ == situation(standard_grid(), Player::Bot),
            g@.phase == Phase::Early,
            g@.winner is None,
    {
        Game::new()
    }
}

impl Game {
    /// A game records the phase of its grid, and a winner exactly when
    /// the grid leaves neither player a move and one of them leads.
    #[verifier::type_invariant]
    spec fn consistent(self) -> bool {
        &&& self.phase == Phase::of_turn(turn_of(self.board@))
        &&& self.winner == if game_over(self.board@) {
            leader(self.board@)
        } else {
            None
        }
    }

    /// The game on `board` with `current_player` to move.
    fn assemble(board: Board, current_player: Player) -> (g: Game)
        ensures
            g@ == situation(board@, current_player),
    {
        let darks = board.positions(Disk::Dark).len();
        let lights = board.positions(Disk::Light).len();
        proof {
            lemma_cells_where_bounds(holds(board@, Disk::Dark), 64);
            lemma_cells_where_bounds(holds(board@, Disk::Light), 64);
        }
        let disks = darks + lights;
        let turn: usize = if disks >= 4 {
            disks - 4
        } else {
            0
        };
        let over = legal_positions(&board, Disk::Light).len() == 0 && legal_positions(
            &board,
            Disk::Dark,
        ).len() == 0;
        let winner = if !over {
            None
        } else if lights > darks {
            Some(Player::Bot)
        } else if darks > lights {
            Some(Player::Human)
        } else {
            None
        };
        Game { board, current_player, phase: Phase::new(turn), winner }
    }

    /// The game at its start: the starting position, the bot to move.
    pub fn new() -> (g: Game)
        ensures
            g@ == situation(standard_grid(), Player::Bot),
            g@.phase == Phase::Early,
            g@.winner is None,
    {
        proof {
            lemma_standard_start();
        }
        Game::assemble(Board::new(), Player::Bot)
    }

    /// The game on `board` with `current_player` to move.
    pub fn parse(board: Board, current_player: Player) -> (g: Game)
        ensures
            g@ == situation(board@, current_player),
    {
        Game::assemble(board, current_player)
    }

    /// The grid of a game has the shape of a board.
    pub proof fn lemma_grid(self)
        ensures
            is_grid(self@.grid),
    {
    }

    /// The player to move.
    pub fn current_player(&self) -> (p: Player)
        ensures
            p == self@.to_move,
    {
        self.current_player
    }

    /// The board.
    pub fn board(&self) -> (b: &Board)
        ensures
            b@ == self@.grid,
    {
        &self.board
    }

    /// The legal actions of `player`: the empty cells that a walk from
    /// one of the player's disks comes to across disks of the opponent.
    /// Each placement is listed once, in row-major order.
    pub fn actions(&self, player: Player) -> (moves: Vec<Action>)
        ensures
            moves@ == legal_actions(self@.grid, player),
    {
        let cells = legal_positions(&self.board, player.disk());
        let mut moves: Vec<Action> = Vec::new();
        let mut i: usize = 0;
        while i < cells.len()
            invariant
                i <= cells@.len(),
                moves@ == cells@.take(i as int).map_values(action_of(player)),
            decreases cells@.len() - i,
        {
            moves.push(Action { player, placement: cells[i] });
            assert(moves@ =~= cells@.take(i + 1).map_values(action_of(player)));
            i += 1;
        }
        assert(cells@.take(cells@.len() as int) =~= cells@);
        moves
    }

    /// The game after `action`: the player's disk is placed, every line
    /// of opposing disks that the placement closes is turned, and the turn
    /// passes to the opponent. The placement must be an empty cell.
    pub fn result(&self, action: &Action) -> (next: Game)
        requires
            action.placement@.on_board(),
            disk_at(self@.grid, action.placement@) is None,
        ensures
            next@ == situation(
                after_move(self@.grid, action.player.disk(), action.placement@),
                action.player.opponent(),
            ),
    {
        let own = action.player.disk();
        let at = action.placement;
        let ghost g = self.board@;
        let mut board = self.board;
        let placed = board.place(own, &at);
        assert(board@ =~~= moved(g, own, at@, 0, 0));
        let dirs = Direction::all();
        let mut n: usize = 0;
        while n < dirs.len()
            invariant
                n <= 8,
                dirs@ == Direction::compass(),
                g == self.board@,
                at@.on_board(),
                board@ == moved(g, own, at@, n as int, 0),
            decreases 8 - n,
        {
            let dir = dirs[n];
            assert(compass_index(dir) == n);
            let path = captured_line(&self.board, own, &at, dir);
            proof {
                if path@.len() > 0 {
                    assert(captures_toward(g, own, at@, dir));
                    lemma_capture_unique(
                        g,
                        own,
                        at@,
                        dir,
                        path@.len() as int,
                        reach(g, own, at@, dir),
                    );
                }
            }
            let mut i: usize = 0;
            while i < path.len()
                invariant
                    i <= path@.len(),
                    n < 8,
                    compass_index(dir) == n,
                    at@.on_board(),
                    reach(g, own, at@, dir) == path@.len(),
                    path@.len() > 0 ==> captures(g, own, at@, dir, path@.len() as int),
                    forall|j: int|
                        0 <= j < path@.len() ==> (#[trigger] path@[j])@ == at@.shift(dir, j + 1),
                    board@ == moved(g, own, at@, n as int, i as int),
                decreases path@.len() - i,
            {
                let q = path[i];
                proof {
                    assert(q@ == at@.shift(dir, i + 1));
                    assert(q@.on_board());
                    assert(disk_at(g, q@) == Some(own.flipped()));
                    lemma_not_yet_turned(g, own, at@, dir, n as int, i as int);
                }
                let turned = board.flip(&q);
                proof {
                    lemma_turn_one(g, own, at@, dir, n as int, i as int);
                }
                i += 1;
            }
            proof {
                lemma_direction_done(g, own, at@, dir, n as int);
            }
            n += 1;
        }
        proof {
            lemma_all_turned(g, own, at@);
        }
        Game::assemble(board, action.player.opponent())
    }

    /// The static evaluation of the position, from the bot's side.
    pub fn evaluate(&self) -> (v: i32)
        ensures
            v == evaluation(self@.grid),
    {
        let ghost g = self.board@;
        proof {
            use_type_invariant(self);
            lemma_cells_where_bounds(holds(g, Disk::Dark), 64);
            lemma_cells_where_bounds(holds(g, Disk::Light), 64);
            lemma_cells_where_bounds(legal(g, Disk::Dark), 64);
            lemma_cells_where_bounds(legal(g, Disk::Light), 64);
        }
        let index = self.phase.to_index();
        assert(index == phase_index(g));
        let bot_cells = self.board.positions(Disk::Light);
        let human_cells = self.board.positions(Disk::Dark);
        let bot_moves = legal_positions(&self.board, Disk::Light);
        let human_moves = legal_positions(&self.board, Disk::Dark);
        let placement: i32 = weigh(&bot_cells) - weigh(&human_cells);
        let mobility: i32 = bot_moves.len() as i32 - human_moves.len() as i32;
        let disks: i32 = bot_cells.len() as i32 - human_cells.len() as i32;
        let for_placement = PLACEMENT_WEIGHTS[index];
        let for_mobility = MOBILITY_WEIGHTS[index];
        let for_disks = NUM_DISKS_WEIGHTS[index];
        assert(for_placement == placement_weight(index as int));
        assert(for_mobility == mobility_weight(index as int));
        assert(for_disks == disks_weight(index as int));
        assert(-35200 <= for_placement * placement <= 35200) by (nonlinear_arith)
            requires
                2 <= for_placement <= 5,
                -7040 <= placement <= 7040,
        ;
        assert(-320 <= for_mobility * mobility <= 320) by (nonlinear_arith)
            requires
                3 <= for_mobility <= 5,
                -64 <= mobility <= 64,
        ;
        assert(-64 <= for_disks * disks <= 64) by (nonlinear_arith)
            requires
                -1 <= for_disks <= 0,
                -64 <= disks <= 64,
        ;
        for_placement * placement + for_mobility * mobility + for_disks * disks
    }

    /// Whether the game is over: neither player has a legal action.
    pub fn is_over(&self) -> (over: bool)
        ensures
            over == game_over(self@.grid),
    {
        legal_positions(&self.board, Disk::Light).len() == 0 && legal_positions(
            &self.board,
            Disk::Dark,
        ).len() == 0
    }

    /// The winner of a finished game; nobody when it is a draw.
    pub fn winner(&self) -> (w: Option<Player>)
        requires
            game_over(self@.grid),
        ensures
            w == leader(self@.grid),
            disk_count(self@.grid, Disk::Light) > disk_count(self@.grid, Disk::Dark) ==> w == Some(
                Player::Bot,
            ),
            disk_count(self@.grid, Disk::Dark) > disk_count(self@.grid, Disk::Light) ==> w == Some(
                Player::Human,
            ),
            disk_count(self@.grid, Disk::Light) == disk_count(self@.grid, Disk::Dark) ==> w is None,
    {
        proof {
            use_type_invariant(self);
        }
        self.winner
    }

    /// The worth of a finished game to the search.
    pub fn utility(&self) -> (v: i32)
        requires
            game_over(self@.grid),
        ensures
            v == utility_of(self@.grid),
            disk_count(self@.grid, Disk::Light) > disk_count(self@.grid, Disk::Dark) ==> v
                == ceiling(),
            disk_count(self@.grid, Disk::Light) <= disk_count(self@.grid, Disk::Dark) ==> v
                == floor(),
    {
        proof {
            use_type_invariant(self);
        }
        match self.winner {
            Some(Player::Bot) => max_best_evaluation(),
            _ => min_best_evaluation(),
        }
    }
}

/// Where a direction stands in the compass.
spec fn compass_index(dir: Direction) -> int {
    match dir {
        Direction::North => 0,
        Direction::NorthEast => 1,
        Direction::East => 2,
        Direction::SouthEast => 3,
        Direction::South => 4,
        Direction::SouthWest => 5,
        Direction::West => 6,
        Direction::NorthWest => 7,
    }
}

/// How many disks placing `own` on `at` captures in direction `dir`.
spec fn reach(g: Grid, own: Disk, at: Cell, dir: Direction) -> int {
    if captures_toward(g, own, at, dir) {
        choose|k: int| captures(g, own, at, dir, k)
    } else {
        0
    }
}

/// How many king's moves lie between two cells.
spec fn span(at: Cell, c: Cell) -> int {
    let rows = if c.row >= at.row {
        c.row - at.row
    } else {
        at.row - c.row
    };
    let cols = if c.col >= at.col {
        c.col - at.col
    } else {
        at.col - c.col
    };
    if rows >= cols {
        rows
    } else {
        cols
    }
}

/// Whether `c` lies in direction `dir` from `at` and has been turned once
/// the directions before the `n`-th are done and the first `i` captured
/// disks of the `n`-th are turned.
spec fn turned_toward(
    g: Grid,
    own: Disk,
    at: Cell,
    c: Cell,
    dir: Direction,
    n: int,
    i: int,
) -> bool {
    &&& span(at, c) >= 1
    &&& c == at.shift(dir, span(at, c))
    &&& (compass_index(dir) < n && span(at, c) <= reach(g, own, at, dir)) || (compass_index(dir)
        == n && span(at, c) <= i)
}

/// Whether `c` has been turned at that stage of the move.
spec fn turned(g: Grid, own: Disk, at: Cell, c: Cell, n: int, i: int) -> bool {
    ||| turned_toward(g, own, at, c, Direction::North, n, i)
    ||| turned_toward(g, own, at, c, Direction::NorthEast, n, i)
    ||| turned_toward(g, own, at, c, Direction::East, n, i)
    ||| turned_toward(g, own, at, c, Direction::SouthEast, n, i)
    ||| turned_toward(g, own, at, c, Direction::South, n, i)
    ||| turned_toward(g, own, at, c, Direction::SouthWest, n, i)
    ||| turned_toward(g, own, at, c, Direction::West, n, i)
    ||| turned_toward(g, own, at, c, Direction::NorthWest, n, i)
}

/// The grid at that stage of the move.
spec fn moved(g: Grid, own: Disk, at: Cell, n: int, i: int) -> Grid {
    grid_of(
        |c: Cell|
            if c == at || turned(g, own, at, c, n, i) {
                Some(own)
            } else {
                disk_at(g, c)
            },
    )
}

/// The next disk to turn has not been turned yet.
proof fn lemma_not_yet_turned(g: Grid, own: Disk, at: Cell, dir: Direction, n: int, i: int)
    requires
        compass_index(dir) == n,
        i >= 0,
    ensures
        at.shift(dir, i + 1) != at,
        !turned(g, own, at, at.shift(dir, i + 1), n, i),
        at.shift(dir, i + 1).on_board() ==> disk_at(moved(g, own, at, n, i), at.shift(dir, i + 1))
            == disk_at(g, at.shift(dir, i + 1)),
{
}

/// Turning the next captured disk moves the stage on by one disk.
proof fn lemma_turn_one(g: Grid, own: Disk, at: Cell, dir: Direction, n: int, i: int)
    requires
        compass_index(dir) == n,
        i >= 0,
        at.shift(dir, i + 1).on_board(),
    ensures
        with_content(moved(g, own, at, n, i), at.shift(dir, i + 1), Some(own)) == moved(
            g,
            own,
            at,
            n,
            i + 1,
        ),
{
    let q = at.shift(dir, i + 1);
    assert(span(at, q) == i + 1);
    assert(turned_toward(g, own, at, q, dir, n, i + 1));
    assert forall|c: Cell| c.on_board() && c != q implies turned(g, own, at, c, n, i + 1)
        == turned(g, own, at, c, n, i) by {}
    assert(with_content(moved(g, own, at, n, i), q, Some(own)) =~~= moved(g, own, at, n, i + 1));
}

/// When every captured disk of a direction is turned, the direction is
/// done.
proof fn lemma_direction_done(g: Grid, own: Disk, at: Cell, dir: Direction, n: int)
    requires
        compass_index(dir) == n,
    ensures
        moved(g, own, at, n, reach(g, own, at, dir)) == moved(g, own, at, n + 1, 0),
{
    assert forall|c: Cell| c.on_board() implies turned(g, own, at, c, n, reach(g, own, at, dir))
        == turned(g, own, at, c, n + 1, 0) by {}
    assert(moved(g, own, at, n, reach(g, own, at, dir)) =~~= moved(g, own, at, n + 1, 0));
}

/// When all eight directions are done, the captured disks are the
/// turned ones.
proof fn lemma_all_turned(g: Grid, own: Disk, at: Cell)
    ensures
        moved(g, own, at, 8, 0) == after_move(g, own, at),
{
    assert forall|c: Cell| turned(g, own, at, c, 8, 0) == is_captured(g, own, at, c) by {
        if is_captured(g, own, at, c) {
            let (dir, k, i) = choose|dir: Direction, k: int, i: int|
                #![trigger captures(g, own, at, dir, k), at.shift(dir, i)]
                captures(g, own, at, dir, k) && 1 <= i <= k && c == at.shift(dir, i);
            assert(captures_toward(g, own, at, dir));
            lemma_capture_unique(g, own, at, dir, k, reach(g, own, at, dir));
            assert(span(at, c) == i);
            assert(turned_toward(g, own, at, c, dir, 8, 0));
        }
        if turned(g, own, at, c, 8, 0) {
            let dir = if turned_toward(g, own, at, c, Direction::North, 8, 0) {
                Direction::North
            } else if turned_toward(g, own, at, c, Direction::NorthEast, 8, 0) {
                Direction::NorthEast
            } else if turned_toward(g, own, at, c, Direction::East, 8, 0) {
                Direction::East
            } else if turned_toward(g, own, at, c, Direction::SouthEast, 8, 0) {
                Direction::SouthEast
            } else if turned_toward(g, own, at, c, Direction::South, 8, 0) {
                Direction::South
            } else if turned_toward(g, own, at, c, Direction::SouthWest, 8, 0) {
                Direction::SouthWest
            } else if turned_toward(g, own, at, c, Direction::West, 8, 0) {
                Direction::West
            } else {
                Direction::NorthWest
            };
            assert(turned_toward(g, own, at, c, dir, 8, 0));
            assert(captures_toward(g, own, at, dir));
            assert(captures(g, own, at, dir, reach(g, own, at, dir)));
            assert(c == at.shift(dir, span(at, c)));
        }
    }
    assert(moved(g, own, at, 8, 0) =~~= after_move(g, own, at));
}

/// The static evaluation of any grid stays within fixed bounds.
pub proof fn lemma_evaluation_bounded(g: Grid)
    ensures
        -35584 <= evaluation(g) <= 35584,
{
    lemma_cells_where_bounds(holds(g, Disk::Dark), 64);
    lemma_cells_where_bounds(holds(g, Disk::Light), 64);
    lemma_cells_where_bounds(legal(g, Disk::Dark), 64);
    lemma_cells_where_bounds(legal(g, Disk::Light), 64);
    lemma_total_weight_bounded(cells_holding(g, Disk::Dark));
    lemma_total_weight_bounded(cells_holding(g, Disk::Light));
    let p = placement_lead(g);
    let m = mobility_lead(g);
    let d = disks_lead(g);
    let i = phase_index(g);
    assert(-35200 <= placement_weight(i) * p <= 35200) by (nonlinear_arith)
        requires
            2 <= placement_weight(i) <= 5,
            -7040 <= p <= 7040,
    ;
    assert(-320 <= mobility_weight(i) * m <= 320) by (nonlinear_arith)
        requires
            3 <= mobility_weight(i) <= 5,
            -64 <= m <= 64,
    ;
    assert(-64 <= disks_weight(i) * d <= 64) by (nonlinear_arith)
        requires
            -1 <= disks_weight(i) <= 0,
            -64 <= d <= 64,
    ;
}

/// The weights of some cells add up to no more than a corner for each
/// and no less than a corner's neighbour for each.
pub proof fn lemma_total_weight_bounded(cells: Seq<Position>)
    ensures
        -10 * cells.len() <= total_weight(cells) <= 100 * cells.len(),
    decreases cells.len(),
{
    if cells.len() > 0 {
        lemma_total_weight_bounded(cells.drop_last());
    }
}

/// The action of `player` on each placement.
pub open spec fn action_of(player: Player) -> spec_fn(Position) -> Action {
    |p: Position| Action { player, placement: p }
}

/// The legal actions of `player` on `g`, by placement in row-major order.
pub open spec fn legal_actions(g: Grid, player: Player) -> Seq<Action> {
    legal_cells(g, player.disk()).map_values(action_of(player))
}

/// The evaluation that the search takes for the bot's best: that of
/// the board that is all light.
pub fn max_best_evaluation() -> (v: i32)
    ensures
        v == ceiling(),
{
    1584
}

/// The evaluation that the search takes for the human's best.
pub fn min_best_evaluation() -> (v: i32)
    ensures
        v == floor(),
{
    -max_best_evaluation()
}

} // verus!
