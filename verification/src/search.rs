//! What the bot's search computes, as mathematics: a depth-limited
//! minimax search with cut-offs, its value at every node and the number of
//! nodes it expands.

use crate::board::{Disk, Grid, Position};
use crate::game::Player;
use crate::rules::{after_move, ceiling, evaluation, floor, game_over, legal_cells, utility_of};
use vstd::prelude::*;

verus! {

/// What the search finds at a node or over a run of children.
pub struct Outcome {
    /// The value found.
    pub value: int,
    /// How many nodes were expanded on the way.
    pub nodes: nat,
    /// The games that were evaluated statically on the way, each as its
    /// grid and the player to move.
    pub frontier: Set<(Grid, Player)>,
}

/// What the search decides at the root.
pub struct Verdict {
    /// Which of the bot's legal placements is chosen, if any is.
    pub chosen: Option<int>,
    /// How many nodes were expanded below the root.
    pub nodes: nat,
    /// The games that were evaluated statically on the way.
    pub frontier: Set<(Grid, Player)>,
}

/// The smaller of two values.
pub open spec fn lower(a: int, b: int) -> int {
    if a < b {
        a
    } else {
        b
    }
}

/// The larger of two values.
pub open spec fn higher(a: int, b: int) -> int {
    if a > b {
        a
    } else {
        b
    }
}

/// The value of a node where the human is to move, with `plies` plies
/// of lookahead left. A finished game is worth its utility and a node
/// without lookahead its static evaluation; neither is expanded. Any
/// other node is expanded, and is worth what the scan of the human's
/// legal placements finds.
pub open spec fn min_value_of(g: Grid, max_best: int, min_best: int, plies: nat) -> Outcome
    decreases plies, 1nat, 0nat,
{
    if game_over(g) {
        Outcome { value: utility_of(g), nodes: 0, frontier: Set::empty() }
    } else if plies == 0 {
        Outcome { value: evaluation(g), nodes: 0, frontier: set![(g, Player::Human)] }
    } else {
        let scan = min_scan(g, legal_cells(g, Disk::Dark), 0, max_best, min_best, ceiling(), plies);
        Outcome { value: scan.value, nodes: scan.nodes + 1, frontier: scan.frontier }
    }
}

/// The scan of the human's placements from the `i`-th on, `lowest`
/// being the least value met so far. Each placement is valued as a node
/// of the bot, one ply deeper and under the same bounds. The scan stops at
/// the first placement that brings the least value down to `min_best` or
/// below; without placements left it yields the least value as it stands.
pub open spec fn min_scan(
    g: Grid,
    cells: Seq<Position>,
    i: nat,
    max_best: int,
    min_best: int,
    lowest: int,
    plies: nat,
) -> Outcome
    decreases plies, 0nat, cells.len() - i,
{
    if i >= cells.len() || plies == 0 {
        Outcome { value: lowest, nodes: 0, frontier: Set::empty() }
    } else {
        let child = max_value_of(
            after_move(g, Disk::Dark, cells[i as int]@),
            max_best,
            min_best,
            (plies - 1) as nat,
        );
        let least = lower(child.value, lowest);
        if least <= min_best {
            Outcome { value: least, nodes: child.nodes, frontier: child.frontier }
        } else {
            let rest = min_scan(g, cells, i + 1, max_best, min_best, least, plies);
            Outcome {
                value: rest.value,
                nodes: child.nodes + rest.nodes,
                frontier: child.frontier.union(rest.frontier),
            }
        }
    }
}

/// The value of a node where the bot is to move; see [`min_value_of`].
pub open spec fn max_value_of(g: Grid, max_best: int, min_best: int, plies: nat) -> Outcome
    decreases plies, 1nat, 0nat,
{
    if game_over(g) {
        Outcome { value: utility_of(g), nodes: 0, frontier: Set::empty() }
    } else if plies == 0 {
        Outcome { value: evaluation(g), nodes: 0, frontier: set![(g, Player::Bot)] }
    } else {
        let scan = max_scan(g, legal_cells(g, Disk::Light), 0, max_best, min_best, floor(), plies);
        Outcome { value: scan.value, nodes: scan.nodes + 1, frontier: scan.frontier }
    }
}

/// The scan of the bot's placements from the `i`-th on, `highest` being
/// the greatest value met so far. Each placement is valued as a node of
/// the human, one ply deeper. The scan stops at the first placement that
/// brings the greatest value up to `min_best` or above; otherwise it goes
/// on with `max_best` raised to the greatest value, if that is higher.
pub open spec fn max_scan(
    g: Grid,
    cells: Seq<Position>,
    i: nat,
    max_best: int,
    min_best: int,
    highest: int,
    plies: nat,
) -> Outcome
    decreases plies, 0nat, cells.len() - i,
{
    if i >= cells.len() || plies == 0 {
        Outcome { value: highest, nodes: 0, frontier: Set::empty() }
    } else {
        let child = min_value_of(
            after_move(g, Disk::Light, cells[i as int]@),
            max_best,
            min_best,
            (plies - 1) as nat,
        );
        let most = higher(child.value, highest);
        if most >= min_best {
            Outcome { value: most, nodes: child.nodes, frontier: child.frontier }
        } else {
            let rest = max_scan(g, cells, i + 1, higher(max_best, most), min_best, most, plies);
            Outcome {
                value: rest.value,
                nodes: child.nodes + rest.nodes,
                frontier: child.frontier.union(rest.frontier),
            }
        }
    }
}

/// The scan of the bot's placements at the root, from the `i`-th on.
/// Each placement is valued as a node of the human with `plies` plies of
/// lookahead, between `bot_best` and the ceiling. A placement whose value
/// reaches `best`, the best value so far, takes the lead, so that of
/// placements of equal value the last one wins; `bot_best` follows the
/// best value up.
pub open spec fn root_scan(
    g: Grid,
    cells: Seq<Position>,
    i: nat,
    bot_best: int,
    best: int,
    chosen: Option<int>,
    plies: nat,
) -> Verdict
    decreases cells.len() - i,
{
    if i >= cells.len() {
        Verdict { chosen, nodes: 0, frontier: Set::empty() }
    } else {
        let child = min_value_of(
            after_move(g, Disk::Light, cells[i as int]@),
            bot_best,
            ceiling(),
            plies,
        );
        let leads = child.value >= best;
        let best = if leads {
            child.value
        } else {
            best
        };
        let chosen = if leads {
            Some(i as int)
        } else {
            chosen
        };
        let rest = root_scan(g, cells, i + 1, higher(bot_best, best), best, chosen, plies);
        Verdict {
            chosen: rest.chosen,
            nodes: child.nodes + rest.nodes,
            frontier: child.frontier.union(rest.frontier),
        }
    }
}

/// What the bot decides on `g` with a depth limit of `limit`: the scan
/// of all its legal placements, starting from the floor.
pub open spec fn decision(g: Grid, limit: nat) -> Verdict {
    root_scan(g, legal_cells(g, Disk::Light), 0, floor(), floor(), None, limit)
}

} // verus!
