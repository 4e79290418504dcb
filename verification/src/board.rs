//! The board and its geometry: directions, disks, positions and the grid.
//! Nothing here knows whose turn it is or what a capture is.

use crate::errors::Error;
use crate::text::{
    chars_of, decimal_text, first_index, lemma_first_index, line_bounds, lines_of,
    parse_unsigned, push_char, push_decimal, unsigned_value,
};
use vstd::prelude::*;

verus! {

pub const BOARD_SIZE: usize = 8;

pub const DARK_CHAR: char = 'D';

pub const LIGHT_CHAR: char = 'L';

pub const EMPTY_CHAR: char = 'E';

/// A point of the integer plane. Contracts use it for cells that may lie
/// off the board; a [`Position`] is viewed as the cell it names.
pub struct Cell {
    pub row: int,
    pub col: int,
}

/// What every cell of a board holds, as eight rows of eight cells.
pub type Grid = Seq<Seq<Option<Disk>>>;

/// The eight compass directions.
#[derive(Copy, Clone, PartialEq, Eq, Debug, Structural)]
pub enum Direction {
    North,
    NorthEast,
    East,
    SouthEast,
    South,
    SouthWest,
    West,
    NorthWest,
}

impl Direction {
    /// Every direction, clockwise from north.
    pub open spec fn compass() -> Seq<Direction> {
        seq![
            Direction::North,
            Direction::NorthEast,
            Direction::East,
            Direction::SouthEast,
            Direction::South,
            Direction::SouthWest,
            Direction::West,
            Direction::NorthWest,
        ]
    }

    /// By how many rows one step in this direction moves; north is up.
    pub open spec fn row_step(self) -> int {
        match self {
            Direction::North | Direction::NorthEast | Direction::NorthWest => -1,
            Direction::East | Direction::West => 0,
            Direction::South | Direction::SouthEast | Direction::SouthWest => 1,
        }
    }

    /// By how many columns one step in this direction moves; east is right.
    pub open spec fn col_step(self) -> int {
        match self {
            Direction::West | Direction::NorthWest | Direction::SouthWest => -1,
            Direction::North | Direction::South => 0,
            Direction::East | Direction::NorthEast | Direction::SouthEast => 1,
        }
    }

    /// All directions, in the order of [`Direction::compass`].
    pub fn all() -> (dirs: Vec<Direction>)
        ensures
            dirs@ == Direction::compass(),
    {
        let dirs = vec![
            Direction::North,
            Direction::NorthEast,
            Direction::East,
            Direction::SouthEast,
            Direction::South,
            Direction::SouthWest,
            Direction::West,
            Direction::NorthWest,
        ];
        assert(dirs@ =~= Direction::compass());
        dirs
    }
}

/// `k` steps of size `step`, for a step of -1, 0 or 1.
pub open spec fn stride(step: int, k: int) -> int {
    if step < 0 {
        -k
    } else if step == 0 {
        0
    } else {
        k
    }
}

impl Cell {
    /// Whether the cell lies on the board.
    pub open spec fn on_board(self) -> bool {
        0 <= self.row < BOARD_SIZE && 0 <= self.col < BOARD_SIZE
    }

    /// The cell `k` steps away in direction `dir`.
    pub open spec fn shift(self, dir: Direction, k: int) -> Cell {
        Cell {
            row: self.row + stride(dir.row_step(), k),
            col: self.col + stride(dir.col_step(), k),
        }
    }

    /// The position that names this cell, for a cell on the board.
    pub open spec fn position(self) -> Position {
        Position { row: self.row as usize, col: self.col as usize }
    }
}

/// The two colours of disk.
#[derive(Clone, Copy, PartialEq, Eq, Debug, Hash, Structural)]
pub enum Disk {
    Dark,
    Light,
}

impl Default for Disk {
    fn default() -> (d: Disk)
        ensures
            d == Disk::Dark,
    {
        Disk::Dark
    }
}

impl Disk {
    /// The character that stands for the disk.
    pub open spec fn symbol(self) -> char {
        match self {
            Disk::Dark => DARK_CHAR,
            Disk::Light => LIGHT_CHAR,
        }
    }

    /// The other colour.
    pub open spec fn flipped(self) -> Disk {
        match self {
            Disk::Dark => Disk::Light,
            Disk::Light => Disk::Dark,
        }
    }

    /// The message of the error for a character that names no disk.
    pub open spec fn parse_failure(ch: char) -> Seq<char> {
        "Invalid character to parse into a disk: "@.push(ch)
    }

    /// Parses `'D'` and `'L'`; every other character is refused.
    pub fn parse(ch: char) -> (r: Result<Disk, Error>)
        ensures
            ch == DARK_CHAR ==> r == Ok::<Disk, Error>(Disk::Dark),
            ch == LIGHT_CHAR ==> r == Ok::<Disk, Error>(Disk::Light),
            ch != DARK_CHAR && ch != LIGHT_CHAR ==> r is Err && r->Err_0 is ParseError
                && r->Err_0.message() == Disk::parse_failure(ch),
    {
        if ch == DARK_CHAR {
            Ok(Disk::Dark)
        } else if ch == LIGHT_CHAR {
            Ok(Disk::Light)
        } else {
            let mut message = "Invalid character to parse into a disk: ".to_owned();
            push_char(&mut message, ch);
            Err(Error::ParseError(message))
        }
    }

    /// The disk's character.
    pub fn to_char(self) -> (ch: char)
        ensures
            ch == self.symbol(),
    {
        match self {
            Disk::Dark => DARK_CHAR,
            Disk::Light => LIGHT_CHAR,
        }
    }

    /// The disk's textual form: its character alone.
    pub fn to_string(&self) -> (s: String)
        ensures
            s@ == seq![self.symbol()],
    {
        let mut s = String::new();
        push_char(&mut s, self.to_char());
        assert(s@ =~= seq![self.symbol()]);
        s
    }
}

/// A row and a column. Only positions with both below [`BOARD_SIZE`]
/// name a cell of the board.
#[derive(Debug, PartialEq, Clone, Copy, Hash, Eq, Structural)]
pub struct Position {
    pub row: usize,
    pub col: usize,
}

impl View for Position {
    type V = Cell;

    open spec fn view(&self) -> Cell {
        Cell { row: self.row as int, col: self.col as int }
    }
}

impl Default for Position {
    fn default() -> (p: Position)
        ensures
            p == (Position { row: 0, col: 0 }),
    {
        Position { row: 0, col: 0 }
    }
}

const POSITION_WEIGHTS: [[i32; BOARD_SIZE]; BOARD_SIZE] = [
    [100, -10, 30, 20, 20, 30, -10, 100],
    [-10, -10, 1, 2, 2, 1, -10, -10],
    [30, 1, 10, 6, 6, 10, 1, 30],
    [20, 2, 6, 0, 0, 6, 2, 20],
    [20, 2, 6, 0, 0, 6, 2, 20],
    [30, 1, 10, 6, 6, 10, 1, 30],
    [-10, -10, 1, 2, 2, 1, -10, -10],
    [100, -10, 30, 20, 20, 30, -10, 100],
];

/// The strategic worth of a cell. The table is symmetric about both
/// centre lines, so one quadrant describes it: a corner is worth 100, the
/// cells that give a corner away cost 10, the edges are worth 20 to 30 and
/// the four centre cells nothing.
pub open spec fn weight_at(c: Cell) -> int {
    let r = if c.row < 4 {
        c.row
    } else {
        7 - c.row
    };
    let k = if c.col < 4 {
        c.col
    } else {
        7 - c.col
    };
    if r == 0 {
        if k == 0 {
            100
        } else if k == 1 {
            -10
        } else if k == 2 {
            30
        } else {
            20
        }
    } else if r == 1 {
        if k == 0 {
            -10
        } else if k == 1 {
            -10
        } else if k == 2 {
            1
        } else {
            2
        }
    } else if r == 2 {
        if k == 0 {
            30
        } else if k == 1 {
            1
        } else if k == 2 {
            10
        } else {
            6
        }
    } else {
        if k == 0 {
            20
        } else if k == 1 {
            2
        } else if k == 2 {
            6
        } else {
            0
        }
    }
}

/// The compass direction in which `to` lies as seen from `from`, by the
/// signs of the row and column differences. A target in the same row and
/// not to the west counts as east.
pub open spec fn direction_between(from: Cell, to: Cell) -> Direction {
    if to.row < from.row {
        if to.col < from.col {
            Direction::NorthWest
        } else if to.col == from.col {
            Direction::North
        } else {
            Direction::NorthEast
        }
    } else if to.row == from.row {
        if to.col < from.col {
            Direction::West
        } else {
            Direction::East
        }
    } else {
        if to.col < from.col {
            Direction::SouthWest
        } else if to.col == from.col {
            Direction::South
        } else {
            Direction::SouthEast
        }
    }
}

/// A cell reached by walking in a direction lies in that direction.
pub proof fn lemma_direction_of_walk(c: Cell, dir: Direction, k: int)
    requires
        k >= 1,
    ensures
        direction_between(c, c.shift(dir, k)) == dir,
        c.shift(dir, k) != c,
{
}

/// The `k`-th cell of the board in row-major order.
pub open spec fn cell_of_index(k: int) -> Position {
    Position { row: (k / 8) as usize, col: (k % 8) as usize }
}

/// Every cell of the board, row by row.
pub open spec fn all_cells() -> Seq<Position> {
    Seq::new(64, |k: int| cell_of_index(k))
}

/// Among the first `n` cells of the board in row-major order, those that
/// satisfy `pred`, in that order.
pub open spec fn cells_where(pred: spec_fn(Cell) -> bool, n: nat) -> Seq<Position>
    decreases n,
{
    if n == 0 {
        Seq::empty()
    } else {
        let rest = cells_where(pred, (n - 1) as nat);
        let p = cell_of_index(n - 1);
        if pred(p@) {
            rest.push(p)
        } else {
            rest
        }
    }
}

/// What [`cells_where`] yields are cells of the board that satisfy the
/// predicate, at most one for each cell looked at.
pub proof fn lemma_cells_where_bounds(pred: spec_fn(Cell) -> bool, n: nat)
    requires
        n <= 64,
    ensures
        cells_where(pred, n).len() <= n,
        forall|i: int|
            0 <= i < cells_where(pred, n).len() ==> {
                let p = #[trigger] cells_where(pred, n)[i];
                p@.on_board() && pred(p@) && p.row * 8 + p.col < n
            },
    decreases n,
{
    if n > 0 {
        lemma_cells_where_bounds(pred, (n - 1) as nat);
    }
}

/// A cell of the board that satisfies the predicate is among what
/// [`cells_where`] yields once it has been looked at.
pub proof fn lemma_cells_where_complete(pred: spec_fn(Cell) -> bool, n: nat, p: Position)
    requires
        n <= 64,
        p@.on_board(),
        p.row * 8 + p.col < n,
        pred(p@),
    ensures
        cells_where(pred, n).contains(p),
    decreases n,
{
    let last = cell_of_index(n - 1);
    let rest = cells_where(pred, (n - 1) as nat);
    if p.row * 8 + p.col == n - 1 {
        assert(last == p);
        assert(rest.push(p)[rest.len() as int] == p);
    } else {
        lemma_cells_where_complete(pred, (n - 1) as nat, p);
        let i = choose|i: int| 0 <= i < rest.len() && rest[i] == p;
        if pred(last@) {
            assert(rest.push(last)[i] == p);
        }
    }
}

/// What [`cells_where`] yields from the whole board are the cells of
/// the board that satisfy the predicate.
pub proof fn lemma_cells_where_contains(pred: spec_fn(Cell) -> bool, p: Position)
    ensures
        cells_where(pred, 64).contains(p) <==> p@.on_board() && pred(p@),
{
    lemma_cells_where_bounds(pred, 64);
    if p@.on_board() && pred(p@) {
        lemma_cells_where_complete(pred, 64, p);
    }
}

/// Where every cell looked at satisfies the predicate, [`cells_where`]
/// yields them all.
pub proof fn lemma_cells_where_all(pred: spec_fn(Cell) -> bool, n: nat)
    requires
        n <= 64,
        forall|k: int| 0 <= k < n ==> pred(#[trigger] cell_of_index(k)@),
    ensures
        cells_where(pred, n) == all_cells().take(n as int),
    decreases n,
{
    if n > 0 {
        lemma_cells_where_all(pred, (n - 1) as nat);
        assert(all_cells().take(n as int) =~= all_cells().take(n - 1).push(cell_of_index(n - 1)));
    } else {
        assert(all_cells().take(0) =~= Seq::<Position>::empty());
    }
}

/// Where no cell looked at satisfies the predicate, [`cells_where`]
/// yields none.
pub proof fn lemma_cells_where_none(pred: spec_fn(Cell) -> bool, n: nat)
    requires
        n <= 64,
        forall|k: int| 0 <= k < n ==> !pred(#[trigger] cell_of_index(k)@),
    ensures
        cells_where(pred, n) == Seq::<Position>::empty(),
    decreases n,
{
    if n > 0 {
        lemma_cells_where_none(pred, (n - 1) as nat);
    }
}

/// Two predicates that differ on one cell only, which satisfies the
/// first and not the second, select as many cells but for that one.
pub proof fn lemma_cells_where_without(
    wide: spec_fn(Cell) -> bool,
    narrow: spec_fn(Cell) -> bool,
    n: nat,
    j: int,
)
    requires
        n <= 64,
        0 <= j < 64,
        wide(cell_of_index(j)@),
        !narrow(cell_of_index(j)@),
        forall|k: int|
            0 <= k < 64 && k != j ==> wide(#[trigger] cell_of_index(k)@) == narrow(
                cell_of_index(k)@,
            ),
    ensures
        cells_where(narrow, n).len() == cells_where(wide, n).len() - if j < n {
            1int
        } else {
            0int
        },
    decreases n,
{
    if n > 0 {
        lemma_cells_where_without(wide, narrow, (n - 1) as nat, j);
        assert(wide(cell_of_index(n - 1)@) == narrow(cell_of_index(n - 1)@) || n - 1 == j);
    }
}

/// The textual form of a position: row, comma, column.
pub open spec fn position_text(p: Position) -> Seq<char> {
    decimal_text(p.row as nat) + seq![','] + decimal_text(p.col as nat)
}

/// The message of the error for a string that names no position.
pub open spec fn position_failure(s: Seq<char>) -> Seq<char> {
    "Invalid string to parse into a position: "@ + s
}

/// The position that a text names: a row and a column around the one
/// comma of the text, each an unsigned decimal number of machine size.
/// A text without a comma, with more than one, or with anything but such
/// a number on either side names no position.
pub open spec fn position_named(s: Seq<char>) -> Option<Position> {
    let k = first_index(s, ',') as int;
    if k < s.len() && first_index(s.skip(k + 1), ',') == s.len() - k - 1 {
        match (
            unsigned_value(s.take(k), usize::MAX as nat),
            unsigned_value(s.skip(k + 1), usize::MAX as nat),
        ) {
            (Some(row), Some(col)) => Some(Position { row: row as usize, col: col as usize }),
            _ => None,
        }
    } else {
        None
    }
}

/// Where `ch` first occurs in `chars` at or after `from`; the length of
/// `chars` if it does not.
fn find(chars: &Vec<char>, ch: char, from: usize) -> (at: usize)
    requires
        from <= chars@.len(),
    ensures
        from <= at <= chars@.len(),
        at - from == first_index(chars@.skip(from as int), ch),
{
    let mut at: usize = from;
    while at < chars.len()
        invariant
            from <= at <= chars@.len(),
            forall|j: int| from <= j < at ==> chars@[j] != ch,
        decreases chars@.len() - at,
    {
        if chars[at] == ch {
            proof {
                lemma_first_index(chars@.skip(from as int), ch, at - from);
            }
            return at;
        }
        at += 1;
    }
    proof {
        lemma_first_index(chars@.skip(from as int), ch, at - from);
    }
    at
}

impl Position {
    /// Parses `"<row>,<col>"`: two unsigned decimal numbers around one
    /// comma. Every other text is refused.
    pub fn parse(s: String) -> (r: Result<Position, Error>)
        ensures
            match position_named(s@) {
                Some(p) => r == Ok::<Position, Error>(p),
                None => r is Err && r->Err_0 is ParseError && r->Err_0.message()
                    == position_failure(s@),
            },
    {
        let chars = chars_of(s.as_str());
        let n = chars.len();
        let ghost text = chars@;
        assert(text.skip(0) =~= text);
        let comma = find(&chars, ',', 0);
        if comma < n && find(&chars, ',', comma + 1) == n {
            assert(text.take(comma as int) =~= text.subrange(0, comma as int));
            assert(text.skip(comma + 1) =~= text.subrange(comma + 1, n as int));
            let row = parse_unsigned(&chars, 0, comma);
            let col = parse_unsigned(&chars, comma + 1, n);
            match (row, col) {
                (Some(row), Some(col)) => {
                    return Ok(Position { row, col });
                },
                _ => {},
            }
        }
        let mut message = "Invalid string to parse into a position: ".to_owned();
        message.append(s.as_str());
        Err(Error::ParseError(message))
    }

    /// The position at `row` and `col`.
    pub fn new(row: usize, col: usize) -> (p: Position)
        ensures
            p == (Position { row, col }),
    {
        Position { row, col }
    }

    /// Whether the position names a cell of the board.
    pub fn is_inbound(&self) -> (b: bool)
        ensures
            b == self@.on_board(),
    {
        self.row < BOARD_SIZE && self.col < BOARD_SIZE
    }

    /// The direction towards another position.
    pub fn direction(&self, target: &Position) -> (d: Direction)
        requires
            *self != *target,
        ensures
            d == direction_between(self@, target@),
    {
        if target.row < self.row {
            if target.col < self.col {
                Direction::NorthWest
            } else if target.col == self.col {
                Direction::North
            } else {
                Direction::NorthEast
            }
        } else if target.row == self.row {
            if target.col < self.col {
                Direction::West
            } else {
                Direction::East
            }
        } else {
            if target.col < self.col {
                Direction::SouthWest
            } else if target.col == self.col {
                Direction::South
            } else {
                Direction::SouthEast
            }
        }
    }

    /// The weight of the cell that the position names.
    pub fn weight(&self) -> (w: i32)
        requires
            self@.on_board(),
        ensures
            w == weight_at(self@),
    {
        POSITION_WEIGHTS[self.row][self.col]
    }

    /// Every position of the board in row-major order.
    pub fn all() -> (cells: Vec<Position>)
        ensures
            cells@ == all_cells(),
    {
        let mut cells: Vec<Position> = Vec::new();
        let mut k: usize = 0;
        while k < BOARD_SIZE * BOARD_SIZE
            invariant
                k <= 64,
                cells@ == all_cells().take(k as int),
            decreases 64 - k,
        {
            cells.push(Position::new(k / BOARD_SIZE, k % BOARD_SIZE));
            assert(cells@ =~= all_cells().take(k + 1));
            k += 1;
        }
        assert(all_cells().take(64) =~= all_cells());
        cells
    }

    /// The textual form: row, comma, column, in decimal.
    pub fn to_string(&self) -> (s: String)
        ensures
            s@ == position_text(*self),
    {
        let mut s = String::new();
        push_decimal(&mut s, self.row);
        push_char(&mut s, ',');
        push_decimal(&mut s, self.col);
        assert(s@ =~= position_text(*self));
        s
    }
}

/// The grid: each cell holds a disk or nothing.
#[derive(Clone, Copy, PartialEq, Eq, Hash)]
pub struct Board {
    pub grid: [[Option<Disk>; BOARD_SIZE]; BOARD_SIZE],
}

impl View for Board {
    type V = Grid;

    open spec fn view(&self) -> Grid {
        Seq::new(8, |r: int| Seq::new(8, |c: int| self.grid@[r]@[c]))
    }
}

/// Whether `g` has the shape of a board.
pub open spec fn is_grid(g: Grid) -> bool {
    &&& g.len() == 8
    &&& forall|r: int| 0 <= r < 8 ==> (#[trigger] g[r]).len() == 8
}

/// What the grid holds at `c`.
pub open spec fn disk_at(g: Grid, c: Cell) -> Option<Disk> {
    g[c.row][c.col]
}

/// The grid that holds `f(c)` at every cell `c`.
pub open spec fn grid_of(f: spec_fn(Cell) -> Option<Disk>) -> Grid {
    Seq::new(8, |r: int| Seq::new(8, |c: int| f(Cell { row: r, col: c })))
}

/// The grid that holds `content` at `c` and agrees with `g` elsewhere.
pub open spec fn with_content(g: Grid, c: Cell, content: Option<Disk>) -> Grid {
    g.update(c.row, g[c.row].update(c.col, content))
}

/// The grid without any disk.
pub open spec fn empty_grid() -> Grid {
    grid_of(|c: Cell| None)
}

/// The starting position: two disks of each colour around the centre,
/// dark on the falling diagonal.
pub open spec fn standard_grid() -> Grid {
    grid_of(
        |c: Cell|
            if (c.row == 3 && c.col == 3) || (c.row == 4 && c.col == 4) {
                Some(Disk::Dark)
            } else if (c.row == 3 && c.col == 4) || (c.row == 4 && c.col == 3) {
                Some(Disk::Light)
            } else {
                None
            },
    )
}

/// The view of a board has the shape of a board.
pub proof fn lemma_board_is_grid(b: Board)
    ensures
        is_grid(b@),
{
}

/// The predicate "holds no disk".
pub open spec fn vacant(g: Grid) -> spec_fn(Cell) -> bool {
    |c: Cell| disk_at(g, c) is None
}

/// How many cells of the grid are empty.
pub open spec fn vacant_count(g: Grid) -> int {
    cells_where(vacant(g), 64).len() as int
}

/// The predicate "holds a disk of this colour".
pub open spec fn holds(g: Grid, disk: Disk) -> spec_fn(Cell) -> bool {
    |c: Cell| disk_at(g, c) == Some(disk)
}

/// The cells that hold `disk`, in row-major order.
pub open spec fn cells_holding(g: Grid, disk: Disk) -> Seq<Position> {
    cells_where(holds(g, disk), 64)
}

/// The neighbour of `c` in direction `dir`, if it lies on the board.
pub open spec fn neighbour_of(c: Cell, dir: Direction) -> Option<Position> {
    let q = c.shift(dir, 1);
    if q.on_board() {
        Some(q.position())
    } else {
        None
    }
}

/// The `k`-th cell of the three-by-three block centred on `c`, row by row.
pub open spec fn block_cell(c: Cell, k: int) -> Cell {
    Cell { row: c.row + k / 3 - 1, col: c.col + k % 3 - 1 }
}

/// Among the first `n` cells of the block around `c`, those on the board
/// and other than `c`, in order.
pub open spec fn neighbours_among(c: Cell, n: nat) -> Seq<Position>
    decreases n,
{
    if n == 0 {
        Seq::empty()
    } else {
        let rest = neighbours_among(c, (n - 1) as nat);
        let q = block_cell(c, n - 1);
        if q != c && q.on_board() {
            rest.push(q.position())
        } else {
            rest
        }
    }
}

/// Turning a disk over twice leaves the grid as it was.
pub proof fn lemma_flip_twice_restores(g: Grid, c: Cell, d: Disk)
    requires
        is_grid(g),
        c.on_board(),
        disk_at(g, c) == Some(d),
    ensures
        disk_at(with_content(g, c, Some(d.flipped())), c) == Some(d.flipped()),
        with_content(with_content(g, c, Some(d.flipped())), c, Some(d.flipped().flipped())) == g,
{
    let once = with_content(g, c, Some(d.flipped()));
    assert(with_content(once, c, Some(d.flipped().flipped())) =~~= g);
}

/// The message of the error for placing on an occupied cell.
pub open spec fn occupied_failure(p: Position) -> Seq<char> {
    "Given position is not empty to place a disk: "@ + position_text(p)
}

/// The message of the error for flipping an empty cell.
pub open spec fn vacant_failure(p: Position) -> Seq<char> {
    "Board is empty at "@ + position_text(p)
}

/// The character that stands for what a cell holds.
pub open spec fn cell_symbol(content: Option<Disk>) -> char {
    match content {
        None => EMPTY_CHAR,
        Some(d) => d.symbol(),
    }
}

/// What a character of a board text puts on a cell, if it is one of the
/// three that the format knows.
pub open spec fn cell_content(ch: char) -> Option<Option<Disk>> {
    if ch == EMPTY_CHAR {
        Some(None)
    } else if ch == DARK_CHAR {
        Some(Some(Disk::Dark))
    } else if ch == LIGHT_CHAR {
        Some(Some(Disk::Light))
    } else {
        None
    }
}

/// The textual form of a grid: eight lines of eight characters, a line
/// feed between two lines and none at the end.
pub open spec fn board_text(g: Grid) -> Seq<char> {
    Seq::new(
        71,
        |k: int|
            if k % 9 == 8 {
                '\n'
            } else {
                cell_symbol(g[k / 9][k % 9])
            },
    )
}

/// Whether the character `j` of line `i` can be laid on the board: it
/// falls on a cell and is a cell character.
pub open spec fn lays_on_board(lines: Seq<Seq<char>>, i: int, j: int) -> bool {
    i < 8 && j < 8 && cell_content(lines[i][j]) is Some
}

/// Whether the lines of a text can be laid over a board: every
/// character of every line can.
pub open spec fn fits_board(lines: Seq<Seq<char>>) -> bool {
    forall|i: int, j: int|
        0 <= i < lines.len() && 0 <= j < lines[i].len() ==> #[trigger] lays_on_board(lines, i, j)
}

/// Whether the character `j` of line `i` is read before the character
/// `l` of line `k`.
pub open spec fn read_before(i: int, j: int, k: int, l: int) -> bool {
    i < k || (i == k && j < l)
}

/// Whether the character `j` of line `i` is the first, in reading
/// order, that cannot be laid on the board.
pub open spec fn first_fault_at(lines: Seq<Seq<char>>, i: int, j: int) -> bool {
    &&& 0 <= i < lines.len()
    &&& 0 <= j < lines[i].len()
    &&& !lays_on_board(lines, i, j)
    &&& forall|k: int, l: int|
        0 <= k < lines.len() && 0 <= l < lines[k].len() && read_before(k, l, i, j)
            ==> #[trigger] lays_on_board(lines, k, l)
}

/// The message of the error for a board text whose character off the
/// board comes before any character that is no cell character.
pub open spec fn board_failure(data: Seq<char>) -> Seq<char> {
    "Invalid string to parse into a board: "@ + data
}

/// The message of the error for the board text `data` whose first fault
/// is the character `j` of line `i`: that of the disk parser where the
/// character is no cell character, that of the board otherwise.
pub open spec fn fault_message(data: Seq<char>, lines: Seq<Seq<char>>, i: int, j: int) -> Seq<
    char,
> {
    if cell_content(lines[i][j]) is None {
        Disk::parse_failure(lines[i][j])
    } else {
        board_failure(data)
    }
}

/// The starting position overlaid with the lines of a text: the
/// character `j` of line `i` decides cell `(i, j)`, and a cell that the
/// text does not reach keeps what the starting position holds there.
pub open spec fn overlay(lines: Seq<Seq<char>>) -> Grid {
    grid_of(
        |c: Cell|
            if c.row < lines.len() && c.col < lines[c.row].len() {
                cell_content(lines[c.row][c.col]).unwrap()
            } else {
                disk_at(standard_grid(), c)
            },
    )
}

/// The text of row `r` of a grid.
pub open spec fn row_text(g: Grid, r: int) -> Seq<char> {
    Seq::new(8, |c: int| cell_symbol(g[r][c]))
}

/// The lines of the text of a grid, from row `r` on, are the texts of
/// its rows.
proof fn lemma_lines_of_board_text(g: Grid, r: int)
    requires
        0 <= r < 8,
    ensures
        lines_of(board_text(g).skip(9 * r)) == Seq::new(
            (8 - r) as nat,
            |i: int| row_text(g, r + i),
        ),
    decreases 8 - r,
{
    let text = board_text(g);
    let rest = text.skip(9 * r);
    let rows = Seq::new((8 - r) as nat, |i: int| row_text(g, r + i));
    assert forall|j: int| 0 <= j < 8 implies rest[j] != '\n' && rest[j] == row_text(g, r)[j] by {
        assert(rest[j] == text[9 * r + j]);
        assert((9 * r + j) % 9 == j);
        assert((9 * r + j) / 9 == r);
    }
    if r == 7 {
        lemma_first_index(rest, '\n', 8);
        assert(rest =~= row_text(g, 7));
        assert(lines_of(rest) =~= rows);
    } else {
        assert(rest[8] == text[9 * r + 8]);
        assert((9 * r + 8) % 9 == 8);
        lemma_first_index(rest, '\n', 8);
        assert(rest.take(8) =~= row_text(g, r));
        assert(rest.skip(9) =~= text.skip(9 * (r + 1)));
        lemma_lines_of_board_text(g, r + 1);
        let below = Seq::new((8 - (r + 1)) as nat, |i: int| row_text(g, r + 1 + i));
        assert(seq![row_text(g, r)] + below =~= rows);
    }
}

/// Parsing the text of a board gives the board back: the text fits the
/// board, and laid over the starting position it leaves nothing of it.
pub proof fn lemma_text_round_trip(g: Grid)
    requires
        is_grid(g),
    ensures
        fits_board(lines_of(board_text(g))),
        overlay(lines_of(board_text(g))) == g,
{
    lemma_lines_of_board_text(g, 0);
    assert(board_text(g).skip(0) =~= board_text(g));
    let lines = lines_of(board_text(g));
    assert forall|i: int, j: int|
        0 <= i < lines.len() && 0 <= j < lines[i].len() implies #[trigger] lays_on_board(
        lines,
        i,
        j,
    ) && cell_content(lines[i][j]) == Some(g[i][j]) by {
        assert(lines[i] == row_text(g, i));
    }
    assert forall|r: int, c: int| 0 <= r < 8 && 0 <= c < 8 implies overlay(lines)[r][c]
        == g[r][c] by {
        assert(lines[r] == row_text(g, r));
        assert(lays_on_board(lines, r, c));
    }
    assert(overlay(lines) =~~= g);
}

/// The starting position overlaid with the lines before line `i` and
/// the first `j` characters of line `i`.
spec fn overlaid_up_to(lines: Seq<Seq<char>>, i: int, j: int) -> Grid {
    grid_of(
        |c: Cell|
            if (c.row < i && c.col < lines[c.row].len()) || (c.row == i && c.col < j) {
                cell_content(lines[c.row][c.col]).unwrap()
            } else {
                disk_at(standard_grid(), c)
            },
    )
}

impl Default for Board {
    fn default() -> (b: Board)
        ensures
            b@ == standard_grid(),
    {
        Board::new()
    }
}

impl Board {
    /// The board in the starting position.
    pub fn new() -> (b: Board)
        ensures
            b@ == standard_grid(),
    {
        assert(BOARD_SIZE % 2 == 0);
        let mut b = Board { grid: [[None; BOARD_SIZE]; BOARD_SIZE] };
        let mid: usize = BOARD_SIZE / 2 - 1;
        b.grid[mid][mid] = Some(Disk::Dark);
        b.grid[mid + 1][mid] = Some(Disk::Light);
        b.grid[mid][mid + 1] = Some(Disk::Light);
        b.grid[mid + 1][mid + 1] = Some(Disk::Dark);
        assert(b@ =~~= standard_grid());
        b
    }

    /// Parses a board text. The text is laid over the starting position,
    /// so a text that stops short leaves the starting disks where it does
    /// not reach. The text is refused at its first character that is no
    /// cell character or falls off the board.
    pub fn parse(data: String) -> (r: Result<Board, Error>)
        ensures
            fits_board(lines_of(data@)) ==> r is Ok && r->Ok_0@ == overlay(lines_of(data@)),
            !fits_board(lines_of(data@)) ==> r is Err && r->Err_0 is ParseError && exists|
                i: int,
                j: int,
            |
                first_fault_at(lines_of(data@), i, j) && r->Err_0.message() == fault_message(
                    data@,
                    lines_of(data@),
                    i,
                    j,
                ),
    {
        let chars = chars_of(data.as_str());
        let bounds = line_bounds(&chars);
        let ghost lines = lines_of(data@);
        let mut board = Board::new();
        let mut i: usize = 0;
        assert(board@ =~~= overlaid_up_to(lines, 0, 0));
        while i < bounds.len()
            invariant
                i <= bounds.len(),
                lines == lines_of(data@),
                chars@ == data@,
                bounds@.len() == lines.len(),
                forall|k: int|
                    0 <= k < bounds@.len() ==> {
                        &&& (#[trigger] bounds@[k]).0 <= bounds@[k].1 <= chars@.len()
                        &&& chars@.subrange(bounds@[k].0 as int, bounds@[k].1 as int) == lines[k]
                    },
                forall|k: int, l: int|
                    0 <= k < i && 0 <= l < lines[k].len() ==> #[trigger] lays_on_board(lines, k, l),
                board@ == overlaid_up_to(lines, i as int, 0),
            decreases bounds.len() - i,
        {
            let (from, to) = bounds[i];
            let ghost line = lines[i as int];
            assert(line == chars@.subrange(from as int, to as int));
            let mut j: usize = 0;
            while j < to - from
                invariant
                    j <= to - from,
                    i < bounds.len(),
                    from <= to <= chars@.len(),
                    lines == lines_of(data@),
                    i < lines.len(),
                    line == lines[i as int],
                    line == chars@.subrange(from as int, to as int),
                    forall|k: int, l: int|
                        0 <= k < i && 0 <= l < lines[k].len() ==> #[trigger] lays_on_board(
                            lines,
                            k,
                            l,
                        ),
                    forall|l: int| 0 <= l < j ==> #[trigger] lays_on_board(lines, i as int, l),
                    board@ == overlaid_up_to(lines, i as int, j as int),
                decreases to - from - j,
            {
                let ch = chars[from + j];
                assert(ch == lines[i as int][j as int]);
                let content = if ch == EMPTY_CHAR {
                    None
                } else {
                    match Disk::parse(ch) {
                        Ok(disk) => Some(disk),
                        Err(e) => {
                            assert(first_fault_at(lines, i as int, j as int));
                            return Err(e);
                        },
                    }
                };
                if i >= BOARD_SIZE || j >= BOARD_SIZE {
                    assert(first_fault_at(lines, i as int, j as int));
                    let mut message = "Invalid string to parse into a board: ".to_owned();
                    message.append(data.as_str());
                    return Err(Error::ParseError(message));
                }
                board.put(&Position::new(i, j), content);
                assert(board@ =~~= overlaid_up_to(lines, i as int, j + 1));
                j += 1;
            }
            assert(overlaid_up_to(lines, i as int, j as int) =~~= overlaid_up_to(lines, i + 1, 0));
            i += 1;
        }
        assert(fits_board(lines));
        assert(board@ =~~= overlay(lines));
        Ok(board)
    }

    /// Sets what the cell at `pos` holds.
    fn put(&mut self, pos: &Position, content: Option<Disk>)
        requires
            pos@.on_board(),
        ensures
            final(self)@ == with_content(old(self)@, pos@, content),
    {
        self.grid[pos.row][pos.col] = content;
        assert(self@ =~~= with_content(old(self)@, pos@, content));
    }

    /// The textual form of the board.
    pub fn to_string(&self) -> (s: String)
        ensures
            s@ == board_text(self@),
    {
        let mut s = String::new();
        let mut k: usize = 0;
        while k < 71
            invariant
                k <= 71,
                s@ == board_text(self@).take(k as int),
            decreases 71 - k,
        {
            let ch = if k % 9 == 8 {
                '\n'
            } else {
                match self.grid[k / 9][k % 9] {
                    None => EMPTY_CHAR,
                    Some(disk) => disk.to_char(),
                }
            };
            push_char(&mut s, ch);
            assert(s@ =~= board_text(self@).take(k + 1));
            k += 1;
        }
        assert(board_text(self@).take(71) =~= board_text(self@));
        s
    }

    /// What the cell at `pos` holds.
    pub fn disk(&self, pos: &Position) -> (d: Option<Disk>)
        requires
            pos@.on_board(),
        ensures
            d == disk_at(self@, pos@),
    {
        self.grid[pos.row][pos.col]
    }

    /// Puts `disk` on the empty cell at `pos`. An occupied cell is
    /// refused and the board stays as it was.
    pub fn place(&mut self, disk: Disk, pos: &Position) -> (r: Result<(), Error>)
        requires
            pos@.on_board(),
        ensures
            disk_at(old(self)@, pos@) is None ==> r is Ok && final(self)@ == with_content(
                old(self)@,
                pos@,
                Some(disk),
            ),
            disk_at(old(self)@, pos@) is Some ==> r is Err && r->Err_0 is InvalidArgument
                && r->Err_0.message() == occupied_failure(*pos) && *final(self) == *old(self),
    {
        if self.disk(pos).is_some() {
            let mut message = "Given position is not empty to place a disk: ".to_owned();
            message.append(pos.to_string().as_str());
            return Err(Error::InvalidArgument(message));
        }
        self.grid[pos.row][pos.col] = Some(disk);
        assert(self@ =~~= with_content(old(self)@, pos@, Some(disk)));
        Ok(())
    }

    /// Turns over the disk at `pos`. An empty cell is refused and the
    /// board stays as it was.
    pub fn flip(&mut self, pos: &Position) -> (r: Result<(), Error>)
        requires
            pos@.on_board(),
        ensures
            match disk_at(old(self)@, pos@) {
                Some(d) => r is Ok && final(self)@ == with_content(
                    old(self)@,
                    pos@,
                    Some(d.flipped()),
                ),
                None => r is Err && r->Err_0 is InvalidArgument && r->Err_0.message()
                    == vacant_failure(*pos) && *final(self) == *old(self),
            },
    {
        match self.disk(pos) {
            None => {
                let mut message = "Board is empty at ".to_owned();
                message.append(pos.to_string().as_str());
                Err(Error::InvalidArgument(message))
            },
            Some(disk) => {
                let turned = if disk == Disk::Dark {
                    Disk::Light
                } else {
                    Disk::Dark
                };
                self.grid[pos.row][pos.col] = Some(turned);
                assert(self@ =~~= with_content(old(self)@, pos@, Some(disk.flipped())));
                Ok(())
            },
        }
    }

    /// Every position that holds `disk`, in row-major order.
    pub fn positions(&self, disk: Disk) -> (cells: Vec<Position>)
        ensures
            cells@ == cells_holding(self@, disk),
    {
        let mut cells: Vec<Position> = Vec::new();
        let mut k: usize = 0;
        while k < BOARD_SIZE * BOARD_SIZE
            invariant
                k <= 64,
                cells@ == cells_where(holds(self@, disk), k as nat),
            decreases 64 - k,
        {
            let pos = Position::new(k / BOARD_SIZE, k % BOARD_SIZE);
            assert(pos == cell_of_index(k as int));
            if self.disk(&pos) == Some(disk) {
                cells.push(pos);
            }
            k += 1;
        }
        cells
    }

    /// The neighbour of `pos` in direction `dir`, unless that step leaves
    /// the board.
    pub fn neighbour(&self, pos: &Position, dir: Direction) -> (n: Option<Position>)
        requires
            pos@.on_board(),
        ensures
            n == neighbour_of(pos@, dir),
    {
        let up = match dir {
            Direction::North | Direction::NorthEast | Direction::NorthWest => true,
            _ => false,
        };
        let down = match dir {
            Direction::South | Direction::SouthEast | Direction::SouthWest => true,
            _ => false,
        };
        let left = match dir {
            Direction::West | Direction::NorthWest | Direction::SouthWest => true,
            _ => false,
        };
        let right = match dir {
            Direction::East | Direction::NorthEast | Direction::SouthEast => true,
            _ => false,
        };
        if (up && pos.row == 0) || (down && pos.row + 1 >= BOARD_SIZE) || (left && pos.col == 0)
            || (right && pos.col + 1 >= BOARD_SIZE) {
            return None;
        }
        let row = if up {
            pos.row - 1
        } else if down {
            pos.row + 1
        } else {
            pos.row
        };
        let col = if left {
            pos.col - 1
        } else if right {
            pos.col + 1
        } else {
            pos.col
        };
        Some(Position::new(row, col))
    }

    /// The cells next to `pos` that lie on the board, scanning the block
    /// around it row by row.
    pub fn neighbours(&self, pos: &Position) -> (cells: Vec<Position>)
        requires
            pos@.on_board(),
        ensures
            cells@ == neighbours_among(pos@, 9),
    {
        let mut cells: Vec<Position> = Vec::new();
        let mut k: usize = 0;
        while k < 9
            invariant
                k <= 9,
                pos@.on_board(),
                cells@ == neighbours_among(pos@, k as nat),
            decreases 9 - k,
        {
            let dr: usize = k / 3;
            let dc: usize = k % 3;
            assert(block_cell(pos@, k as int) == (Cell {
                row: pos.row + dr - 1,
                col: pos.col + dc - 1,
            }));
            if !(dr == 1 && dc == 1) && pos.row + dr >= 1 && pos.row + dr <= BOARD_SIZE
                && pos.col + dc >= 1 && pos.col + dc <= BOARD_SIZE {
                cells.push(Position::new(pos.row + dr - 1, pos.col + dc - 1));
            }
            k += 1;
        }
        cells
    }

    /// Takes every disk off the board.
    pub fn clear(&mut self)
        ensures
            final(self)@ == empty_grid(),
    {
        self.grid = [[None; BOARD_SIZE]; BOARD_SIZE];
        assert(self@ =~~= empty_grid());
    }
}

} // verus!
