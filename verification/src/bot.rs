//! The bot: a depth-limited minimax search over the game tree, with a
//! memo of the static evaluations it has computed.

use crate::board::{
    cell_of_index, disk_at, is_grid, lemma_cells_where_bounds, vacant, vacant_count, Disk, Grid,
    Position, BOARD_SIZE,
};
use crate::errors::Error;
use crate::game::{
    legal_actions, max_best_evaluation, min_best_evaluation, situation, Action, Game, Player,
};
use crate::rules::{
    after_move, ceiling, evaluation, floor, legal, legal_cells, lemma_move_fills_one_cell,
};
use crate::search::{
    decision, higher, max_scan, max_value_of, min_scan, min_value_of, root_scan, Outcome,
};
use std::collections::HashMap;
use vstd::prelude::*;

verus! {

broadcast use vstd::std_specs::hash::group_hash_axioms;

/// The digit that stands for what a cell holds.
spec fn cell_code(content: Option<Disk>) -> int {
    match content {
        None => 0,
        Some(Disk::Dark) => 1,
        Some(Disk::Light) => 2,
    }
}

/// The first `n` cells of the grid read as a number in base three.
spec fn grid_code(g: Grid, n: nat) -> int
    decreases n,
{
    if n == 0 {
        0
    } else {
        grid_code(g, (n - 1) as nat) * 3 + cell_code(disk_at(g, cell_of_index(n - 1)@))
    }
}

/// The powers of three.
spec fn pow3(n: nat) -> int
    decreases n,
{
    if n == 0 {
        1
    } else {
        3 * pow3((n - 1) as nat)
    }
}

/// The number that stands for a grid and the player to move on it.
spec fn key_of(g: Grid, mover: Player) -> int {
    grid_code(g, 64) * 2 + if mover == Player::Bot {
        0int
    } else {
        1int
    }
}

/// The code of `n` cells lies below the `n`-th power of three.
proof fn lemma_code_bound(g: Grid, n: nat)
    ensures
        0 <= grid_code(g, n) < pow3(n),
    decreases n,
{
    if n > 0 {
        lemma_code_bound(g, (n - 1) as nat);
    }
}

/// The powers of three are positive and grow.
proof fn lemma_pow3_grows(m: nat, n: nat)
    requires
        m <= n,
    ensures
        0 < pow3(m) <= pow3(n),
    decreases n,
{
    if n > 0 {
        if m < n {
            lemma_pow3_grows(m, (n - 1) as nat);
        } else {
            lemma_pow3_grows((m - 1) as nat, (n - 1) as nat);
        }
    }
}

/// The 64th power of three, which is less than what 128 bits hold.
proof fn lemma_pow3_64()
    ensures
        pow3(64) == 3433683820292512484657849089281,
{
    reveal_with_fuel(pow3, 17);
    assert(pow3(16) == 43046721);
    assert(pow3(32) == 1853020188851841);
    assert(pow3(48) == 79766443076872509863361);
}

/// Grids with the same code hold the same on every cell the code covers.
proof fn lemma_code_injective(left: Grid, right: Grid, n: nat)
    requires
        grid_code(left, n) == grid_code(right, n),
    ensures
        forall|k: int|
            0 <= k < n ==> disk_at(left, #[trigger] cell_of_index(k)@) == disk_at(
                right,
                cell_of_index(k)@,
            ),
    decreases n,
{
    if n > 0 {
        lemma_code_injective(left, right, (n - 1) as nat);
    }
}

/// Games with the same key are the same game.
proof fn lemma_key_injective(
    left: Grid,
    left_mover: Player,
    right: Grid,
    right_mover: Player,
)
    requires
        is_grid(left),
        is_grid(right),
        key_of(left, left_mover) == key_of(right, right_mover),
    ensures
        left == right,
        left_mover == right_mover,
{
    lemma_code_injective(left, right, 64);
    assert forall|r: int, c: int| 0 <= r < 8 && 0 <= c < 8 implies left[r][c] == right[r][c] by {
        assert(cell_of_index(r * 8 + c)@ == (crate::board::Cell { row: r, col: c }));
    }
    assert(left =~~= right);
}

/// A key fits in 128 bits.
proof fn lemma_key_fits(g: Grid, mover: Player)
    ensures
        0 <= key_of(g, mover) < 0x1_0000_0000_0000_0000_0000_0000_0000_0000,
{
    lemma_code_bound(g, 64);
    lemma_pow3_64();
}

/// Every entry of the memo holds the static evaluation of the game that
/// its key stands for.
spec fn memo_valid(memo: Map<u128, i32>) -> bool {
    forall|g: Grid, mover: Player|
        is_grid(g) && memo.contains_key(#[trigger] key_of(g, mover) as u128) ==> memo[key_of(
            g,
            mover,
        ) as u128] == evaluation(g)
}

/// The memo of `after` holds what the memo of `before` holds and the
/// games of `met`, and no other game.
pub open spec fn grown_by(before: Bot, after: Bot, met: Set<(Grid, Player)>) -> bool {
    forall|g: Grid, mover: Player|
        is_grid(g) ==> (#[trigger] after.remembers(g, mover) <==> before.remembers(g, mover)
            || met.contains((g, mover)))
}

/// A count of nodes as the counter holds it: it stops at the largest
/// number the counter can hold.
pub open spec fn capped(n: int) -> int {
    if n > u32::MAX {
        u32::MAX as int
    } else {
        n
    }
}

/// The message of the error for a game without a legal action.
pub open spec fn no_actions_failure() -> Seq<char> {
    "No actions are available from the given game."@
}

/// The message of the error for a game whose every action is worth
/// less than the floor.
pub open spec fn no_decision_failure() -> Seq<char> {
    "No action is worth the lowest evaluation."@
}

/// The number that stands for `game` in the memo.
fn key(game: &Game) -> (k: u128)
    ensures
        k == key_of(game@.grid, game@.to_move),
{
    let board = game.board();
    let ghost g = board@;
    let mut code: u128 = 0;
    let mut n: usize = 0;
    while n < BOARD_SIZE * BOARD_SIZE
        invariant
            n <= 64,
            g == board@,
            code == grid_code(g, n as nat),
        decreases 64 - n,
    {
        let pos = Position::new(n / BOARD_SIZE, n % BOARD_SIZE);
        assert(pos == cell_of_index(n as int));
        let digit: u128 = match board.disk(&pos) {
            None => 0,
            Some(Disk::Dark) => 1,
            Some(Disk::Light) => 2,
        };
        proof {
            lemma_code_bound(g, n as nat);
            lemma_code_bound(g, (n + 1) as nat);
            lemma_pow3_grows((n + 1) as nat, 64);
            lemma_pow3_64();
        }
        code = code * 3 + digit;
        n += 1;
    }
    proof {
        lemma_code_bound(g, 64);
        lemma_pow3_64();
    }
    let bit: u128 = match game.current_player() {
        Player::Bot => 0,
        Player::Human => 1,
    };
    code * 2 + bit
}

/// The automated opponent.
pub struct Bot {
    depth_limit: u32,
    game: Game,
    minimax_cache: HashMap<u128, i32>,
    /// How many nodes the latest decision expanded, the root included.
    pub num_nodes_expanded: u32,
}

impl Bot {
    /// The bot is in order: the game it holds has the bot to move, and
    /// its memo holds nothing but static evaluations.
    pub closed spec fn wf(&self) -> bool {
        &&& self.game@.to_move == Player::Bot
        &&& memo_valid(self.minimax_cache@)
    }

    /// How many plies the bot looks ahead.
    pub closed spec fn limit(&self) -> nat {
        self.depth_limit as nat
    }

    /// Whether the memo holds the static evaluation of the game with
    /// grid `g` and `mover` to move.
    pub closed spec fn remembers(&self, g: Grid, mover: Player) -> bool {
        self.minimax_cache@.contains_key(key_of(g, mover) as u128)
    }

    /// What the node counter holds.
    pub closed spec fn expanded(&self) -> int {
        self.num_nodes_expanded as int
    }

    /// How many nodes the latest decision expanded, the root included.
    pub fn nodes_expanded(&self) -> (n: u32)
        ensures
            n == self.expanded(),
    {
        self.num_nodes_expanded
    }

    /// A bot that looks `intelligence` plies ahead.
    pub fn new(intelligence: u32) -> (bot: Bot)
        ensures
            bot.wf(),
            bot.limit() == intelligence,
            bot.expanded() == 0,
            forall|g: Grid, mover: Player| !bot.remembers(g, mover),
    {
        Bot {
            depth_limit: intelligence,
            game: Game::new(),
            minimax_cache: HashMap::new(),
            num_nodes_expanded: 0,
        }
    }

    /// Decides the bot's next action on `game` and returns it with the
    /// game that it leads to. Without a legal action for the bot there is
    /// nothing to decide; and no action is decided either where every
    /// action is worth less than the floor. The counter is set to the
    /// number of nodes expanded, the root included, and the memo takes in
    /// the games that were evaluated statically.
    pub fn decide(&mut self, game: &Game) -> (r: Result<(Action, Game), Error>)
        requires
            old(self).wf(),
        ensures
            final(self).wf(),
            final(self).limit() == old(self).limit(),
            final(self).expanded() == capped(
                1int + decision(game@.grid, old(self).limit()).nodes,
            ),
            grown_by(*old(self), *final(self), decision(game@.grid, old(self).limit()).frontier),
            legal_cells(game@.grid, Disk::Light).len() == 0 ==> r is Err && r->Err_0
                is InvalidArgument && r->Err_0.message() == no_actions_failure(),
            match decision(game@.grid, old(self).limit()).chosen {
                Some(i) => {
                    let at = legal_cells(game@.grid, Disk::Light)[i];
                    &&& 0 <= i < legal_cells(game@.grid, Disk::Light).len()
                    &&& r is Ok
                    &&& r->Ok_0.0 == (Action { player: Player::Bot, placement: at })
                    &&& r->Ok_0.1@ == situation(
                        after_move(game@.grid, Disk::Light, at@),
                        Player::Human,
                    )
                },
                None => {
                    &&& r is Err
                    &&& r->Err_0 is InvalidArgument
                    &&& r->Err_0.message() == if legal_cells(game@.grid, Disk::Light).len() == 0 {
                        no_actions_failure()
                    } else {
                        no_decision_failure()
                    }
                },
            },
    {
        let ghost g = game@.grid;
        let ghost plies = self.limit();
        self.num_nodes_expanded = 1;
        let mut bot_best = min_best_evaluation();
        let human_best = max_best_evaluation();
        let mut minimax_value = bot_best;
        let mut best: Option<(Action, Game)> = None;
        let moves = game.actions(Player::Bot);
        let ghost cells = legal_cells(g, Disk::Light);
        let ghost whole = decision(g, plies);
        let ghost mut done: nat = 0;
        let ghost mut met: Set<(Grid, Player)> = Set::empty();
        let ghost mut chosen: Option<int> = None;
        let mut i: usize = 0;
        proof {
            lemma_cells_where_bounds(legal(g, Disk::Light), 64);
            lemma_cells_where_bounds(vacant(g), 64);
        }
        while i < moves.len()
            invariant
                self.wf(),
                self.limit() == old(self).limit() == plies,
                g == game@.grid,
                vacant_count(g) <= 64,
                cells == legal_cells(g, Disk::Light),
                moves@ == legal_actions(g, Player::Bot),
                i <= moves@.len() == cells.len(),
                forall|j: int|
                    0 <= j < cells.len() ==> (#[trigger] cells[j])@.on_board() && disk_at(
                        g,
                        cells[j]@,
                    ) is None,
                human_best == ceiling(),
                whole == decision(g, plies),
                whole.chosen == root_scan(
                    g,
                    cells,
                    i as nat,
                    bot_best as int,
                    minimax_value as int,
                    chosen,
                    plies,
                ).chosen,
                whole.nodes == done + root_scan(
                    g,
                    cells,
                    i as nat,
                    bot_best as int,
                    minimax_value as int,
                    chosen,
                    plies,
                ).nodes,
                match best {
                    Some((action, next)) => {
                        &&& chosen is Some
                        &&& 0 <= chosen->0 < i
                        &&& action == (Action {
                            player: Player::Bot,
                            placement: cells[chosen->0],
                        })
                        &&& next@ == situation(
                            after_move(g, Disk::Light, action.placement@),
                            Player::Human,
                        )
                    },
                    None => chosen is None,
                },
                self.expanded() == capped(1int + done),
                grown_by(*old(self), *self, met),
                whole.frontier == met.union(
                    root_scan(
                        g,
                        cells,
                        i as nat,
                        bot_best as int,
                        minimax_value as int,
                        chosen,
                        plies,
                    ).frontier,
                ),
            decreases moves@.len() - i,
        {
            let action = moves[i];
            assert(action == (Action { player: Player::Bot, placement: cells[i as int] }));
            proof {
                lemma_move_fills_one_cell(g, Disk::Light, cells[i as int]@);
            }
            let result = game.result(&action);
            let ghost child = min_value_of(
                result@.grid,
                bot_best as int,
                ceiling(),
                plies,
            );
            let value = self.min_value(result, bot_best, human_best, 1);
            if value >= minimax_value {
                minimax_value = value;
                best = Some((action, result));
                proof {
                    chosen = Some(i as int);
                }
            }
            bot_best = if bot_best > minimax_value {
                bot_best
            } else {
                minimax_value
            };
            proof {
                done = done + child.nodes;
                let rest = root_scan(
                    g,
                    cells,
                    (i + 1) as nat,
                    bot_best as int,
                    minimax_value as int,
                    chosen,
                    plies,
                ).frontier;
                assert(met.union(child.frontier.union(rest)) =~= met.union(child.frontier).union(
                    rest,
                ));
                met = met.union(child.frontier);
            }
            i += 1;
        }
        match best {
            Some(decided) => Ok(decided),
            None => {
                if moves.len() == 0 {
                    Err(
                        Error::InvalidArgument(
                            "No actions are available from the given game.".to_owned(),
                        ),
                    )
                } else {
                    Err(
                        Error::InvalidArgument(
                            "No action is worth the lowest evaluation.".to_owned(),
                        ),
                    )
                }
            },
        }
    }

    /// The static evaluation of `game`, from the memo where it is there
    /// and into the memo where it is not.
    fn evaluate(&mut self, game: Game) -> (v: i32)
        requires
            old(self).wf(),
        ensures
            final(self).wf(),
            final(self).limit() == old(self).limit(),
            final(self).expanded() == old(self).expanded(),
            grown_by(*old(self), *final(self), set![(game@.grid, game@.to_move)]),
            v == evaluation(game@.grid),
    {
        let k = key(&game);
        proof {
            game.lemma_grid();
            lemma_key_fits(game@.grid, game@.to_move);
        }
        match self.minimax_cache.get(&k) {
            Some(v) => {
                proof {
                    assert forall|g: Grid, mover: Player| is_grid(g) && set![
                        (game@.grid, game@.to_move),
                    ].contains((g, mover)) implies self.remembers(g, mover) by {}
                }
                return *v;
            },
            None => {},
        }
        let value = game.evaluate();
        let ghost before = self.minimax_cache@;
        self.minimax_cache.insert(k, value);
        proof {
            assert forall|g: Grid, mover: Player|
                is_grid(g) && self.minimax_cache@.contains_key(
                    #[trigger] key_of(g, mover) as u128,
                ) implies self.minimax_cache@[key_of(g, mover) as u128] == evaluation(g) by {
                lemma_key_fits(g, mover);
                if key_of(g, mover) as u128 == k {
                    lemma_key_injective(g, mover, game@.grid, game@.to_move);
                } else {
                    assert(before.contains_key(key_of(g, mover) as u128));
                }
            }
            assert forall|g: Grid, mover: Player| is_grid(g) implies (#[trigger] self.remembers(
                g,
                mover,
            ) <==> old(self).remembers(g, mover) || set![(game@.grid, game@.to_move)].contains(
                (g, mover),
            )) by {
                lemma_key_fits(g, mover);
                if key_of(g, mover) as u128 == k {
                    lemma_key_injective(g, mover, game@.grid, game@.to_move);
                }
            }
        }
        value
    }

    /// One more node on the counter, which stops at its largest number.
    fn count_node(&mut self)
        requires
            old(self).wf(),
        ensures
            final(self).wf(),
            final(self).limit() == old(self).limit(),
            final(self).expanded() == capped(old(self).expanded() + 1),
            grown_by(*old(self), *final(self), Set::empty()),
    {
        if self.num_nodes_expanded < u32::MAX {
            self.num_nodes_expanded = self.num_nodes_expanded + 1;
        }
    }

    /// The value of `game`, where the human is to move, at depth `depth`.
    fn min_value(&mut self, game: Game, max_best: i32, min_best: i32, depth: u32) -> (v: i32)
        requires
            old(self).wf(),
            depth <= old(self).limit() + 1,
            depth + vacant_count(game@.grid) <= 64,
            game@.to_move == Player::Human,
        ensures
            final(self).wf(),
            final(self).limit() == old(self).limit(),
            v == min_value_of(
                game@.grid,
                max_best as int,
                min_best as int,
                (old(self).limit() + 1 - depth) as nat,
            ).value,
            final(self).expanded() == capped(
                old(self).expanded() + min_value_of(
                    game@.grid,
                    max_best as int,
                    min_best as int,
                    (old(self).limit() + 1 - depth) as nat,
                ).nodes,
            ),
            grown_by(
                *old(self),
                *final(self),
                min_value_of(
                    game@.grid,
                    max_best as int,
                    min_best as int,
                    (old(self).limit() + 1 - depth) as nat,
                ).frontier,
            ),
        decreases 64 - depth,
    {
        let ghost g = game@.grid;
        let ghost plies = (self.limit() + 1 - depth) as nat;
        let ghost before = self.expanded();
        proof {
            lemma_cells_where_bounds(vacant(g), 64);
        }
        if game.is_over() {
            return game.utility();
        } else if depth > self.depth_limit {
            return self.evaluate(game);
        }
        self.count_node();
        let mut bound = min_best;
        let mut min_best_here = max_best_evaluation();
        let moves = game.actions(Player::Human);
        let ghost cells = legal_cells(g, Disk::Dark);
        let ghost whole = min_scan(g, cells, 0, max_best as int, min_best as int, ceiling(), plies);
        let ghost mut done: nat = 0;
        let ghost mut met: Set<(Grid, Player)> = Set::empty();
        let mut i: usize = 0;
        proof {
            lemma_cells_where_bounds(legal(g, Disk::Dark), 64);
        }
        while i < moves.len()
            invariant
                self.wf(),
                self.limit() == old(self).limit(),
                plies == self.limit() + 1 - depth,
                plies >= 1,
                depth + vacant_count(g) <= 64,
                g == game@.grid,
                cells == legal_cells(g, Disk::Dark),
                moves@ == legal_actions(g, Player::Human),
                i <= moves@.len() == cells.len(),
                forall|j: int|
                    0 <= j < cells.len() ==> (#[trigger] cells[j])@.on_board() && disk_at(
                        g,
                        cells[j]@,
                    ) is None,
                bound == min_best,
                min_value_of(g, max_best as int, min_best as int, plies) == (Outcome {
                    value: whole.value,
                    nodes: whole.nodes + 1,
                    frontier: whole.frontier,
                }),
                grown_by(*old(self), *self, met),
                whole.frontier == met.union(
                    min_scan(
                        g,
                        cells,
                        i as nat,
                        max_best as int,
                        min_best as int,
                        min_best_here as int,
                        plies,
                    ).frontier,
                ),
                whole.value == min_scan(
                    g,
                    cells,
                    i as nat,
                    max_best as int,
                    min_best as int,
                    min_best_here as int,
                    plies,
                ).value,
                whole.nodes == done + min_scan(
                    g,
                    cells,
                    i as nat,
                    max_best as int,
                    min_best as int,
                    min_best_here as int,
                    plies,
                ).nodes,
                before == old(self).expanded(),
                self.expanded() == capped(before + 1 + done),
            decreases moves@.len() - i,
        {
            let action = moves[i];
            assert(action == (Action { player: Player::Human, placement: cells[i as int] }));
            proof {
                lemma_move_fills_one_cell(g, Disk::Dark, cells[i as int]@);
            }
            let result = game.result(&action);
            let ghost child = max_value_of(
                result@.grid,
                max_best as int,
                min_best as int,
                (plies - 1) as nat,
            );
            let value = self.max_value(result, max_best, bound, depth + 1);
            if value < min_best_here {
                min_best_here = value;
            }
            proof {
                done = done + child.nodes;
                let rest = min_scan(
                    g,
                    cells,
                    (i + 1) as nat,
                    max_best as int,
                    min_best as int,
                    min_best_here as int,
                    plies,
                ).frontier;
                assert(met.union(child.frontier.union(rest)) =~= met.union(child.frontier).union(
                    rest,
                ));
                met = met.union(child.frontier);
            }
            if min_best_here <= bound {
                return min_best_here;
            }
            bound = if bound < min_best_here {
                bound
            } else {
                min_best_here
            };
            i += 1;
        }
        min_best_here
    }

    /// The value of `game`, where the bot is to move, at depth `depth`.
    fn max_value(&mut self, game: Game, max_best: i32, min_best: i32, depth: u32) -> (v: i32)
        requires
            old(self).wf(),
            depth <= old(self).limit() + 1,
            depth + vacant_count(game@.grid) <= 64,
            game@.to_move == Player::Bot,
        ensures
            final(self).wf(),
            final(self).limit() == old(self).limit(),
            v == max_value_of(
                game@.grid,
                max_best as int,
                min_best as int,
                (old(self).limit() + 1 - depth) as nat,
            ).value,
            final(self).expanded() == capped(
                old(self).expanded() + max_value_of(
                    game@.grid,
                    max_best as int,
                    min_best as int,
                    (old(self).limit() + 1 - depth) as nat,
                ).nodes,
            ),
            grown_by(
                *old(self),
                *final(self),
                max_value_of(
                    game@.grid,
                    max_best as int,
                    min_best as int,
                    (old(self).limit() + 1 - depth) as nat,
                ).frontier,
            ),
        decreases 64 - depth,
    {
        let ghost g = game@.grid;
        let ghost plies = (self.limit() + 1 - depth) as nat;
        let ghost before = self.expanded();
        proof {
            lemma_cells_where_bounds(vacant(g), 64);
        }
        if game.is_over() {
            return game.utility();
        } else if depth > self.depth_limit {
            return self.evaluate(game);
        }
        self.count_node();
        let mut bound = max_best;
        let mut max_best_here = min_best_evaluation();
        let moves = game.actions(Player::Bot);
        let ghost cells = legal_cells(g, Disk::Light);
        let ghost whole = max_scan(g, cells, 0, max_best as int, min_best as int, floor(), plies);
        let ghost mut done: nat = 0;
        let ghost mut met: Set<(Grid, Player)> = Set::empty();
        let mut i: usize = 0;
        proof {
            lemma_cells_where_bounds(legal(g, Disk::Light), 64);
        }
        while i < moves.len()
            invariant
                self.wf(),
                self.limit() == old(self).limit(),
                plies == self.limit() + 1 - depth,
                plies >= 1,
                depth + vacant_count(g) <= 64,
                g == game@.grid,
                cells == legal_cells(g, Disk::Light),
                moves@ == legal_actions(g, Player::Bot),
                i <= moves@.len() == cells.len(),
                forall|j: int|
                    0 <= j < cells.len() ==> (#[trigger] cells[j])@.on_board() && disk_at(
                        g,
                        cells[j]@,
                    ) is None,
                max_value_of(g, max_best as int, min_best as int, plies) == (Outcome {
                    value: whole.value,
                    nodes: whole.nodes + 1,
                    frontier: whole.frontier,
                }),
                grown_by(*old(self), *self, met),
                whole.frontier == met.union(
                    max_scan(
                        g,
                        cells,
                        i as nat,
                        bound as int,
                        min_best as int,
                        max_best_here as int,
                        plies,
                    ).frontier,
                ),
                whole.value == max_scan(
                    g,
                    cells,
                    i as nat,
                    bound as int,
                    min_best as int,
                    max_best_here as int,
                    plies,
                ).value,
                whole.nodes == done + max_scan(
                    g,
                    cells,
                    i as nat,
                    bound as int,
                    min_best as int,
                    max_best_here as int,
                    plies,
                ).nodes,
                before == old(self).expanded(),
                self.expanded() == capped(before + 1 + done),
            decreases moves@.len() - i,
        {
            let action = moves[i];
            assert(action == (Action { player: Player::Bot, placement: cells[i as int] }));
            proof {
                lemma_move_fills_one_cell(g, Disk::Light, cells[i as int]@);
            }
            let result = game.result(&action);
            let ghost child = min_value_of(
                result@.grid,
                bound as int,
                min_best as int,
                (plies - 1) as nat,
            );
            let value = self.min_value(result, bound, min_best, depth + 1);
            if value > max_best_here {
                max_best_here = value;
            }
            proof {
                done = done + child.nodes;
                let rest = max_scan(
                    g,
                    cells,
                    (i + 1) as nat,
                    higher(bound as int, max_best_here as int),
                    min_best as int,
                    max_best_here as int,
                    plies,
                ).frontier;
                assert(met.union(child.frontier.union(rest)) =~= met.union(child.frontier).union(
                    rest,
                ));
                met = met.union(child.frontier);
            }
            if max_best_here >= min_best {
                return max_best_here;
            }
            bound = if bound > max_best_here {
                bound
            } else {
                max_best_here
            };
            i += 1;
        }
        max_best_here
    }
}

} // verus!
