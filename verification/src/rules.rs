//! The rules of the game as mathematics: which disks a placement
//! captures, which placements are legal, and what a move leaves behind.

use crate::board::{
    all_cells, cell_of_index, cells_holding, cells_where, disk_at, empty_grid, grid_of, holds,
    lemma_cells_where_all, lemma_cells_where_bounds, lemma_cells_where_contains,
    lemma_cells_where_none, lemma_cells_where_without, standard_grid, vacant, vacant_count,
    weight_at, Cell, Direction, Disk, Grid, Position,
};
use crate::game::Player;
use vstd::prelude::*;

verus! {

/// Placing a disk of colour `own` on `c` captures exactly `k` disks in
/// direction `dir`: the next `k` cells hold the other colour, and the cell
/// after them holds `own`.
pub open spec fn captures(g: Grid, own: Disk, c: Cell, dir: Direction, k: int) -> bool {
    &&& k >= 1
    &&& forall|i: int|
        1 <= i <= k ==> (#[trigger] c.shift(dir, i)).on_board() && disk_at(g, c.shift(dir, i))
            == Some(own.flipped())
    &&& c.shift(dir, k + 1).on_board()
    &&& disk_at(g, c.shift(dir, k + 1)) == Some(own)
}

/// Placing a disk of colour `own` on `c` captures in direction `dir`.
pub open spec fn captures_toward(g: Grid, own: Disk, c: Cell, dir: Direction) -> bool {
    exists|k: int| captures(g, own, c, dir, k)
}

/// A placement is legal on an empty cell of the board from which at
/// least one direction captures.
pub open spec fn is_legal(g: Grid, own: Disk, c: Cell) -> bool {
    &&& c.on_board()
    &&& disk_at(g, c) is None
    &&& exists|dir: Direction| captures_toward(g, own, c, dir)
}

/// The predicate "a legal placement for `own`".
pub open spec fn legal(g: Grid, own: Disk) -> spec_fn(Cell) -> bool {
    |c: Cell| is_legal(g, own, c)
}

/// The legal placements for `own`, in row-major order, each once.
pub open spec fn legal_cells(g: Grid, own: Disk) -> Seq<Position> {
    cells_where(legal(g, own), 64)
}

/// Whether a disk of colour `own` placed on `at` captures the disk on `c`.
pub open spec fn is_captured(g: Grid, own: Disk, at: Cell, c: Cell) -> bool {
    exists|dir: Direction, k: int, i: int|
        #![trigger captures(g, own, at, dir, k), at.shift(dir, i)]
        captures(g, own, at, dir, k) && 1 <= i <= k && c == at.shift(dir, i)
}

/// The grid after a disk of colour `own` is placed on `at`: that cell and
/// every captured cell hold `own`, and nothing else changes.
pub open spec fn after_move(g: Grid, own: Disk, at: Cell) -> Grid {
    grid_of(
        |c: Cell|
            if c == at || is_captured(g, own, at, c) {
                Some(own)
            } else {
                disk_at(g, c)
            },
    )
}

/// Neither colour has a legal placement.
pub open spec fn game_over(g: Grid) -> bool {
    legal_cells(g, Disk::Light).len() == 0 && legal_cells(g, Disk::Dark).len() == 0
}

/// The sum of the weights of some cells.
pub open spec fn total_weight(cells: Seq<Position>) -> int
    decreases cells.len(),
{
    if cells.len() == 0 {
        0
    } else {
        total_weight(cells.drop_last()) + weight_at(cells.last()@)
    }
}

/// How many disks of colour `disk` the grid holds.
pub open spec fn disk_count(g: Grid, disk: Disk) -> int {
    cells_holding(g, disk).len() as int
}

/// The turn number: the disks on the board beyond the four of the
/// starting position.
pub open spec fn turn_of(g: Grid) -> int {
    disk_count(g, Disk::Dark) + disk_count(g, Disk::Light) - 4
}

/// The place of the grid's phase in the weight tables: 0 before turn
/// 20, 1 before turn 40, 2 from there on.
pub open spec fn phase_index(g: Grid) -> int {
    if turn_of(g) < 20 {
        0
    } else if turn_of(g) < 40 {
        1
    } else {
        2
    }
}

/// What positional weight counts for in each phase.
pub open spec fn placement_weight(phase: int) -> int {
    if phase == 0 {
        5
    } else if phase == 1 {
        4
    } else {
        2
    }
}

/// What a legal move counts for in each phase.
pub open spec fn mobility_weight(phase: int) -> int {
    if phase == 0 {
        5
    } else if phase == 1 {
        4
    } else {
        3
    }
}

/// What a disk counts for in each phase.
pub open spec fn disks_weight(phase: int) -> int {
    if phase == 0 {
        -1
    } else if phase == 1 {
        -1
    } else {
        0
    }
}

/// By how much the bot's positional weight exceeds the human's.
pub open spec fn placement_lead(g: Grid) -> int {
    total_weight(cells_holding(g, Disk::Light)) - total_weight(cells_holding(g, Disk::Dark))
}

/// By how many legal moves the bot exceeds the human.
pub open spec fn mobility_lead(g: Grid) -> int {
    legal_cells(g, Disk::Light).len() - legal_cells(g, Disk::Dark).len()
}

/// By how many disks the bot exceeds the human.
pub open spec fn disks_lead(g: Grid) -> int {
    disk_count(g, Disk::Light) - disk_count(g, Disk::Dark)
}

/// The static evaluation of a grid, from the bot's side: the three
/// leads, each weighted by the grid's phase.
pub open spec fn evaluation(g: Grid) -> int {
    placement_weight(phase_index(g)) * placement_lead(g) + mobility_weight(phase_index(g))
        * mobility_lead(g) + disks_weight(phase_index(g)) * disks_lead(g)
}

/// The grid on which every cell holds a light disk: what the starting
/// position becomes when each dark disk is turned and each empty cell
/// filled for the bot.
pub open spec fn light_grid() -> Grid {
    grid_of(|c: Cell| Some(Disk::Light))
}

/// The evaluation that the search takes for the bot's best: that of
/// [`light_grid`]. The evaluation of another grid may lie above it.
pub open spec fn ceiling() -> int {
    1584
}

/// The evaluation that the search takes for the human's best: the
/// ceiling negated. The evaluation of a grid may lie below it.
pub open spec fn floor() -> int {
    -ceiling()
}

/// Who holds more disks; nobody when the counts are equal.
pub open spec fn leader(g: Grid) -> Option<Player> {
    if disk_count(g, Disk::Light) > disk_count(g, Disk::Dark) {
        Some(Player::Bot)
    } else if disk_count(g, Disk::Dark) > disk_count(g, Disk::Light) {
        Some(Player::Human)
    } else {
        None
    }
}

/// The worth of a finished game: the bot's best when the bot leads, the
/// human's best when the human leads and also when nobody does.
pub open spec fn utility_of(g: Grid) -> int {
    if leader(g) == Some(Player::Bot) {
        ceiling()
    } else {
        floor()
    }
}

/// Walking `i` steps and then one more is walking `i + 1` steps.
pub proof fn lemma_shift_step(c: Cell, dir: Direction, i: int)
    ensures
        c.shift(dir, i).shift(dir, 1) == c.shift(dir, i + 1),
{
}

/// A walk that stays on the board is shorter than the board is wide.
pub proof fn lemma_walk_is_short(c: Cell, dir: Direction, i: int)
    requires
        c.on_board(),
        c.shift(dir, i).on_board(),
        i >= 0,
    ensures
        i <= 7,
{
}

/// A direction captures one number of disks at most.
pub proof fn lemma_capture_unique(
    g: Grid,
    own: Disk,
    c: Cell,
    dir: Direction,
    first: int,
    second: int,
)
    requires
        captures(g, own, c, dir, first),
        captures(g, own, c, dir, second),
    ensures
        first == second,
{
    if first < second {
        assert(c.shift(dir, first + 1).on_board());
    } else if second < first {
        assert(c.shift(dir, second + 1).on_board());
    }
}

/// A move fills exactly one cell: the placement takes an empty cell and
/// a capture only turns disks.
pub proof fn lemma_move_fills_one_cell(g: Grid, own: Disk, at: Cell)
    requires
        at.on_board(),
        disk_at(g, at) is None,
    ensures
        vacant_count(after_move(g, own, at)) == vacant_count(g) - 1,
{
    let after = after_move(g, own, at);
    let j = at.row * 8 + at.col;
    assert(cell_of_index(j)@ == at);
    assert forall|k: int| 0 <= k < 64 && k != j implies vacant(g)(#[trigger] cell_of_index(k)@)
        == vacant(after)(cell_of_index(k)@) by {
        let c = cell_of_index(k)@;
        assert(c.on_board());
        assert(c != at);
        if is_captured(g, own, at, c) {
            assert(disk_at(g, c) is Some);
        }
    }
    lemma_cells_where_without(vacant(g), vacant(after), 64, j);
}

/// The sum of the weights of the first `n` cells of the board.
pub open spec fn weight_of_first(n: nat) -> int
    decreases n,
{
    if n == 0 {
        0
    } else {
        weight_of_first((n - 1) as nat) + weight_at(cell_of_index(n - 1)@)
    }
}

/// The weights of the first `n` cells add up to [`weight_of_first`].
pub proof fn lemma_weight_of_first(n: nat)
    requires
        n <= 64,
    ensures
        total_weight(all_cells().take(n as int)) == weight_of_first(n),
    decreases n,
{
    if n > 0 {
        lemma_weight_of_first((n - 1) as nat);
        assert(all_cells().take(n as int).drop_last() =~= all_cells().take(n - 1));
    }
}

/// The weights of all cells of the board add up to 792.
pub proof fn lemma_weight_of_board()
    ensures
        weight_of_first(64) == 792,
{
    reveal_with_fuel(weight_of_first, 9);
    assert(weight_of_first(8) == 280);
    assert(weight_of_first(16) == 246);
    assert(weight_of_first(24) == 340);
    assert(weight_of_first(32) == 396);
    assert(weight_of_first(40) == 452);
    assert(weight_of_first(48) == 546);
    assert(weight_of_first(56) == 512);
}

/// The ceiling is the static evaluation of the grid that is all light.
pub proof fn lemma_ceiling_is_evaluation_of_light_grid()
    ensures
        evaluation(light_grid()) == ceiling(),
        evaluation(light_grid()) == -floor(),
{
    let g = light_grid();
    assert forall|k: int| 0 <= k < 64 implies holds(g, Disk::Light)(#[trigger] cell_of_index(k)@)
        && !holds(g, Disk::Dark)(cell_of_index(k)@) && !legal(g, Disk::Light)(cell_of_index(k)@)
        && !legal(g, Disk::Dark)(cell_of_index(k)@) by {
        assert(cell_of_index(k)@.on_board());
    }
    lemma_cells_where_all(holds(g, Disk::Light), 64);
    lemma_cells_where_none(holds(g, Disk::Dark), 64);
    lemma_cells_where_none(legal(g, Disk::Light), 64);
    lemma_cells_where_none(legal(g, Disk::Dark), 64);
    lemma_weight_of_first(64);
    lemma_weight_of_board();
    assert(all_cells().take(64) =~= all_cells());
    assert(total_weight(Seq::<Position>::empty()) == 0);
    assert(phase_index(g) == 2);
}

/// The grid that holds one disk of colour `disk` on `c` and nothing else.
pub open spec fn single(c: Cell, disk: Disk) -> Grid {
    grid_of(
        |q: Cell|
            if q == c {
                Some(disk)
            } else {
                None
            },
    )
}

/// The starting position is turn 0 of a game that is not over: it holds
/// two disks of each colour, and the bot can place north of the dark disk
/// in the upper left of the centre.
pub proof fn lemma_standard_start()
    ensures
        disk_count(standard_grid(), Disk::Dark) == 2,
        disk_count(standard_grid(), Disk::Light) == 2,
        turn_of(standard_grid()) == 0,
        is_legal(standard_grid(), Disk::Light, Cell { row: 2, col: 3 }),
        !game_over(standard_grid()),
{
    let start = standard_grid();
    let nothing = empty_grid();
    let dark = single(Cell { row: 3, col: 3 }, Disk::Dark);
    let light = single(Cell { row: 3, col: 4 }, Disk::Light);
    assert(cell_of_index(27)@ == (Cell { row: 3, col: 3 }));
    assert(cell_of_index(28)@ == (Cell { row: 3, col: 4 }));
    assert(cell_of_index(35)@ == (Cell { row: 4, col: 3 }));
    assert(cell_of_index(36)@ == (Cell { row: 4, col: 4 }));
    assert forall|k: int| 0 <= k < 64 implies (#[trigger] cell_of_index(k)@).on_board() by {}
    lemma_cells_where_none(holds(nothing, Disk::Dark), 64);
    lemma_cells_where_none(holds(nothing, Disk::Light), 64);
    lemma_cells_where_without(holds(dark, Disk::Dark), holds(nothing, Disk::Dark), 64, 27);
    lemma_cells_where_without(holds(start, Disk::Dark), holds(dark, Disk::Dark), 64, 36);
    lemma_cells_where_without(holds(light, Disk::Light), holds(nothing, Disk::Light), 64, 28);
    lemma_cells_where_without(holds(start, Disk::Light), holds(light, Disk::Light), 64, 35);
    let at = Cell { row: 2, col: 3 };
    assert(at.shift(Direction::South, 1) == (Cell { row: 3, col: 3 }));
    assert(at.shift(Direction::South, 2) == (Cell { row: 4, col: 3 }));
    assert(captures(start, Disk::Light, at, Direction::South, 1));
    assert(captures_toward(start, Disk::Light, at, Direction::South));
    lemma_cells_where_contains(legal(start, Disk::Light), at.position());
}

/// Cells without weight add up to nothing.
pub proof fn lemma_weightless(cells: Seq<Position>)
    requires
        forall|i: int| 0 <= i < cells.len() ==> weight_at(#[trigger] cells[i]@) == 0,
    ensures
        total_weight(cells) == 0,
    decreases cells.len(),
{
    if cells.len() > 0 {
        lemma_weightless(cells.drop_last());
    }
}

/// The evaluation of the starting position lies between the floor and
/// the ceiling: its disks stand on cells without weight, each colour has
/// as many disks as the other, and no lead in moves weighs enough to pass
/// either bound.
pub proof fn lemma_start_is_within_extremes()
    ensures
        floor() <= evaluation(standard_grid()) <= ceiling(),
{
    let start = standard_grid();
    lemma_standard_start();
    lemma_cells_where_bounds(holds(start, Disk::Dark), 64);
    lemma_cells_where_bounds(holds(start, Disk::Light), 64);
    lemma_cells_where_bounds(legal(start, Disk::Dark), 64);
    lemma_cells_where_bounds(legal(start, Disk::Light), 64);
    lemma_weightless(cells_holding(start, Disk::Dark));
    lemma_weightless(cells_holding(start, Disk::Light));
    assert(phase_index(start) == 0);
}

/// The direction that points the other way.
pub open spec fn opposite(dir: Direction) -> Direction {
    match dir {
        Direction::North => Direction::South,
        Direction::NorthEast => Direction::SouthWest,
        Direction::East => Direction::West,
        Direction::SouthEast => Direction::NorthWest,
        Direction::South => Direction::North,
        Direction::SouthWest => Direction::NorthEast,
        Direction::West => Direction::East,
        Direction::NorthWest => Direction::SouthEast,
    }
}

/// A walk from the disk of colour `own` on `from`, in direction `dir`,
/// crosses disks of the other colour only, at least one, and comes to an
/// empty cell with its `k`-th step.
pub open spec fn reaches(g: Grid, own: Disk, from: Cell, dir: Direction, k: int) -> bool {
    &&& k >= 2
    &&& from.on_board()
    &&& disk_at(g, from) == Some(own)
    &&& forall|i: int|
        1 <= i < k ==> (#[trigger] from.shift(dir, i)).on_board() && disk_at(
            g,
            from.shift(dir, i),
        ) == Some(own.flipped())
    &&& from.shift(dir, k).on_board()
    &&& disk_at(g, from.shift(dir, k)) is None
}

/// Walking back undoes walking forth.
pub proof fn lemma_shift_back(c: Cell, dir: Direction, k: int, i: int)
    ensures
        c.shift(dir, k).shift(opposite(dir), i) == c.shift(dir, k - i),
        c.shift(opposite(dir), k).shift(dir, i) == c.shift(opposite(dir), k - i),
        c.shift(dir, 0) == c,
{
}

/// The legal placements are the empty cells that a walk from one of the
/// mover's own disks reaches across opposing disks.
pub proof fn lemma_legal_iff_reached(g: Grid, own: Disk, c: Cell)
    ensures
        is_legal(g, own, c) <==> exists|from: Cell, dir: Direction, k: int|
            #![trigger reaches(g, own, from, dir, k)]
            reaches(g, own, from, dir, k) && from.shift(dir, k) == c,
{
    if is_legal(g, own, c) {
        let dir = choose|dir: Direction| captures_toward(g, own, c, dir);
        let n = choose|n: int| captures(g, own, c, dir, n);
        let from = c.shift(dir, n + 1);
        let back = opposite(dir);
        assert forall|i: int| 1 <= i < n + 1 implies (#[trigger] from.shift(back, i)).on_board()
            && disk_at(g, from.shift(back, i)) == Some(own.flipped()) by {
            lemma_shift_back(c, dir, n + 1, i);
            assert(c.shift(dir, n + 1 - i).on_board());
        }
        lemma_shift_back(c, dir, n + 1, n + 1);
        assert(reaches(g, own, from, back, n + 1));
    }
    if exists|from: Cell, dir: Direction, k: int|
        #![trigger reaches(g, own, from, dir, k)]
        reaches(g, own, from, dir, k) && from.shift(dir, k) == c {
        let (from, dir, k) = choose|from: Cell, dir: Direction, k: int|
            #![trigger reaches(g, own, from, dir, k)]
            reaches(g, own, from, dir, k) && from.shift(dir, k) == c;
        let back = opposite(dir);
        assert forall|i: int| 1 <= i <= k - 1 implies (#[trigger] c.shift(back, i)).on_board()
            && disk_at(g, c.shift(back, i)) == Some(own.flipped()) by {
            lemma_shift_back(from, dir, k, i);
            assert(from.shift(dir, k - i).on_board());
        }
        lemma_shift_back(from, dir, k, k);
        assert(captures(g, own, c, back, k - 1));
        assert(captures_toward(g, own, c, back));
    }
}

/// The game is over exactly when no cell is a legal placement for
/// either colour.
pub proof fn lemma_game_over_means_no_legal_cell(g: Grid)
    ensures
        game_over(g) <==> forall|c: Cell, own: Disk| !is_legal(g, own, c),
{
    if game_over(g) {
        assert forall|c: Cell, own: Disk| !is_legal(g, own, c) by {
            if is_legal(g, own, c) {
                lemma_cells_where_contains(legal(g, own), c.position());
                assert(c.position()@ == c);
            }
        }
    }
    if forall|c: Cell, own: Disk| !is_legal(g, own, c) {
        assert forall|k: int| 0 <= k < 64 implies !legal(g, Disk::Light)(
            #[trigger] cell_of_index(k)@,
        ) && !legal(g, Disk::Dark)(cell_of_index(k)@) by {}
        lemma_cells_where_none(legal(g, Disk::Light), 64);
        lemma_cells_where_none(legal(g, Disk::Dark), 64);
    }
}

/// Every direction is one of the eight of the compass.
pub proof fn lemma_compass_complete(dir: Direction)
    ensures
        exists|n: int| 0 <= n < 8 && Direction::compass()[n] == dir,
{
    let s = Direction::compass();
    match dir {
        Direction::North => assert(s[0] == dir),
        Direction::NorthEast => assert(s[1] == dir),
        Direction::East => assert(s[2] == dir),
        Direction::SouthEast => assert(s[3] == dir),
        Direction::South => assert(s[4] == dir),
        Direction::SouthWest => assert(s[5] == dir),
        Direction::West => assert(s[6] == dir),
        Direction::NorthWest => assert(s[7] == dir),
    }
}

} // verus!
