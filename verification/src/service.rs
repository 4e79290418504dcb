//! The logic of the service's endpoints: from the texts of a request to
//! the body of the response, or to the message of a refusal. Sending and
//! receiving is left to the caller.

use crate::board::{
    board_text, fits_board, lemma_cells_where_contains, overlay, position_named, position_text,
    standard_grid, Board, Disk, Grid, Position,
};
use crate::bot::{no_decision_failure, Bot};
use crate::game::{
    legal_actions, max_best_evaluation, min_best_evaluation, Action, Game, Player,
};
use crate::json::{
    array_text, entries_of, json_array, json_null, json_object, json_render, json_string,
    json_text, null_text, object_text, string_text, texts_of,
};
use crate::rules::{
    after_move, ceiling, evaluation, floor, game_over, is_legal, leader, legal, legal_cells,
};
use crate::search::decision;
use crate::text::{chars_of, lines_of};
use vstd::prelude::*;

verus! {

/// The message for a board text that cannot be parsed.
pub open spec fn invalid_board() -> Seq<char> {
    "Invalid board"@
}

/// The message for a player text that names no player.
pub open spec fn invalid_player() -> Seq<char> {
    "Invalid player"@
}

/// The message for a position that is no legal action of the player.
pub open spec fn invalid_action() -> Seq<char> {
    "Invalid action for the given player"@
}

/// The player that a text names: the text is one character, `B` or `H`.
pub open spec fn player_named(s: Seq<char>) -> Option<Player> {
    if s.len() == 1 && s[0] == crate::game::BOT_CHAR {
        Some(Player::Bot)
    } else if s.len() == 1 && s[0] == crate::game::HUMAN_CHAR {
        Some(Player::Human)
    } else {
        None
    }
}

/// The text of the winner of a finished game: the winner's character as
/// a JSON string, or null for a draw.
pub open spec fn winner_text(g: Grid) -> Seq<char> {
    match leader(g) {
        Some(p) => string_text(seq![p.symbol()]),
        None => null_text(),
    }
}

/// The entries of the JSON object that describes a game: its board, and
/// its winner if the game is over.
pub open spec fn result_entries(g: Grid) -> Seq<(Seq<char>, Seq<char>)> {
    if game_over(g) {
        seq![("board"@, string_text(board_text(g))), ("winner"@, winner_text(g))]
    } else {
        seq![("board"@, string_text(board_text(g)))]
    }
}

/// The text of the JSON object that describes a game.
pub open spec fn result_text(g: Grid) -> Seq<char> {
    object_text(result_entries(g))
}

/// The text of a position as a JSON string.
pub open spec fn position_string() -> spec_fn(Position) -> Seq<char> {
    |p: Position| string_text(position_text(p))
}

/// The text of the JSON array of a player's legal placements.
pub open spec fn actions_text(g: Grid, player: Player) -> Seq<char> {
    array_text(legal_cells(g, player.disk()).map_values(position_string()))
}

/// The text of the JSON object that reports the bot's decision for the
/// placement `at`: the placement and the game after it.
pub open spec fn decision_text(g: Grid, at: Position) -> Seq<char> {
    object_text(
        seq![
            ("decision"@, string_text(position_text(at))),
            ("result"@, result_text(after_move(g, Disk::Light, at@))),
        ],
    )
}

/// The text of the JSON object that reports that the bot has no legal
/// action: a null decision and the game as it is.
pub open spec fn no_decision_text(g: Grid) -> Seq<char> {
    object_text(seq![("decision"@, null_text()), ("result"@, result_text(g))])
}

/// An evaluation as a share of the span between the two extremes.
#[derive(Debug, Clone, Copy, PartialEq, Eq, Structural)]
pub struct Ratio {
    /// How far the evaluation lies above the floor.
    pub numerator: i32,
    /// How far the ceiling lies above the floor.
    pub denominator: i32,
}

/// The greeting.
pub fn index() -> (body: &'static str)
    ensures
        body@ == "Hello World!"@,
{
    "Hello World!"
}

/// The text of the starting position.
pub fn initial_board() -> (body: String)
    ensures
        body@ == board_text(standard_grid()),
{
    Board::new().to_string()
}

/// Parses a player text.
fn parse_player(text: &str) -> (p: Option<Player>)
    ensures
        p == player_named(text@),
{
    let chars = chars_of(text);
    if chars.len() != 1 {
        return None;
    }
    match Player::parse(chars[0]) {
        Ok(p) => Some(p),
        Err(_) => None,
    }
}

/// The static evaluation of a board, as a share of the span between
/// the floor and the ceiling.
pub fn evaluate(board: String) -> (r: Result<Ratio, String>)
    ensures
        fits_board(lines_of(board@)) ==> {
            &&& r is Ok
            &&& r->Ok_0.numerator == evaluation(overlay(lines_of(board@))) - floor()
            &&& r->Ok_0.denominator == ceiling() - floor()
        },
        !fits_board(lines_of(board@)) ==> r is Err && r->Err_0@ == invalid_board(),
{
    let board = match Board::parse(board) {
        Ok(board) => board,
        Err(_) => {
            return Err("Invalid board".to_owned());
        },
    };
    let game = Game::parse(board, Player::Bot);
    let evaluation = game.evaluate();
    proof {
        crate::game::lemma_evaluation_bounded(game@.grid);
    }
    let range = max_best_evaluation() - min_best_evaluation();
    Ok(Ratio { numerator: evaluation - min_best_evaluation(), denominator: range })
}

/// The JSON object that describes a game: its board and, once the game
/// is over, its winner.
pub fn serialize_result(game: &Game) -> (v: serde_json::Value)
    ensures
        json_text(v) == result_text(game@.grid),
{
    let mut entries: Vec<(String, serde_json::Value)> = Vec::new();
    entries.push(("board".to_owned(), json_string(game.board().to_string())));
    if game.is_over() {
        let winner = match game.winner() {
            Some(p) => json_string(p.to_string()),
            None => json_null(),
        };
        entries.push(("winner".to_owned(), winner));
    }
    assert(entries_of(entries@) =~= result_entries(game@.grid));
    json_object(entries)
}

/// Whether `action` is among `moves`.
fn contains(moves: &Vec<Action>, action: &Action) -> (found: bool)
    ensures
        found == moves@.contains(*action),
{
    let mut i: usize = 0;
    while i < moves.len()
        invariant
            i <= moves@.len(),
            forall|j: int| 0 <= j < i ==> moves@[j] != *action,
        decreases moves@.len() - i,
    {
        if moves[i] == *action {
            return true;
        }
        i += 1;
    }
    false
}

/// The game after a player's action, as a JSON object. The action is
/// refused unless it is a legal action of the player on the board.
pub fn result(board: String, position: String, player: String) -> (r: Result<String, String>)
    ensures
        !fits_board(lines_of(board@)) ==> r is Err && r->Err_0@ == invalid_board(),
        fits_board(lines_of(board@)) && player_named(player@) is None ==> r is Err && r->Err_0@
            == invalid_player(),
        fits_board(lines_of(board@)) && player_named(player@) is Some ==> {
            let g = overlay(lines_of(board@));
            let own = player_named(player@)->0.disk();
            match position_named(position@) {
                Some(at) => if is_legal(g, own, at@) {
                    r is Ok && r->Ok_0@ == result_text(after_move(g, own, at@))
                } else {
                    r is Err && r->Err_0@ == invalid_action()
                },
                None => r is Err && r->Err_0@ == invalid_action(),
            }
        },
{
    let board = match Board::parse(board) {
        Ok(board) => board,
        Err(_) => {
            return Err("Invalid board".to_owned());
        },
    };
    let player = match parse_player(player.as_str()) {
        Some(player) => player,
        None => {
            return Err("Invalid player".to_owned());
        },
    };
    let game = Game::parse(board, player);
    let placement = match Position::parse(position) {
        Ok(placement) => placement,
        Err(_) => {
            return Err("Invalid action for the given player".to_owned());
        },
    };
    let action = Action::parse(player, placement);
    let moves = game.actions(player);
    proof {
        let cells = legal_cells(game@.grid, player.disk());
        lemma_cells_where_contains(legal(game@.grid, player.disk()), placement);
        if cells.contains(placement) {
            let i = choose|i: int| 0 <= i < cells.len() && cells[i] == placement;
            assert(moves@[i] == action);
        }
        if moves@.contains(action) {
            let i = choose|i: int| 0 <= i < moves@.len() && moves@[i] == action;
            assert(cells[i] == placement);
        }
    }
    if !contains(&moves, &action) {
        return Err("Invalid action for the given player".to_owned());
    }
    let game = game.result(&action);
    Ok(json_render(&serialize_result(&game)))
}

/// The legal placements of a player on a board, as a JSON array of
/// position texts.
pub fn actions(board: String, player: String) -> (r: Result<String, String>)
    ensures
        !fits_board(lines_of(board@)) ==> r is Err && r->Err_0@ == invalid_board(),
        fits_board(lines_of(board@)) ==> match player_named(player@) {
            Some(who) => r is Ok && r->Ok_0@ == actions_text(overlay(lines_of(board@)), who),
            None => r is Err && r->Err_0@ == invalid_player(),
        },
{
    let board = match Board::parse(board) {
        Ok(board) => board,
        Err(_) => {
            return Err("Invalid board".to_owned());
        },
    };
    let player = match parse_player(player.as_str()) {
        Some(player) => player,
        None => {
            return Err("Invalid player".to_owned());
        },
    };
    let game = Game::parse(board, player);
    let moves = game.actions(player);
    let ghost cells = legal_cells(game@.grid, player.disk());
    let mut items: Vec<serde_json::Value> = Vec::new();
    let mut i: usize = 0;
    while i < moves.len()
        invariant
            i <= moves@.len() == cells.len(),
            moves@ == legal_actions(game@.grid, player),
            cells == legal_cells(game@.grid, player.disk()),
            texts_of(items@) == cells.take(i as int).map_values(position_string()),
        decreases moves@.len() - i,
    {
        let ghost before = items@;
        let item = json_string(moves[i].to_string());
        assert(moves@[i as int].placement == cells[i as int]);
        assert(json_text(item) == position_string()(cells[i as int]));
        items.push(item);
        assert(texts_of(items@) =~= texts_of(before).push(json_text(item)));
        assert(cells.take(i + 1).map_values(position_string()) =~= cells.take(
            i as int,
        ).map_values(position_string()).push(position_string()(cells[i as int])));
        i += 1;
    }
    assert(cells.take(cells.len() as int) =~= cells);
    Ok(json_render(&json_array(items)))
}

/// The bot's decision on a board with the bot to move, as a JSON object
/// of the decision and the game it leads to. Where the bot has no legal
/// action, the decision is null and the game is the one received. Where
/// it has legal actions and decides on none, because each is worth less
/// than the floor, the request is refused.
pub fn decide(board: String, intelligence: u32) -> (r: Result<String, String>)
    ensures
        !fits_board(lines_of(board@)) ==> r is Err && r->Err_0@ == invalid_board(),
        fits_board(lines_of(board@)) ==> {
            let g = overlay(lines_of(board@));
            let cells = legal_cells(g, Disk::Light);
            if cells.len() == 0 {
                r is Ok && r->Ok_0@ == no_decision_text(g)
            } else {
                match decision(g, intelligence as nat).chosen {
                    Some(i) => 0 <= i < cells.len() && r is Ok && r->Ok_0@ == decision_text(
                        g,
                        cells[i],
                    ),
                    None => r is Err && r->Err_0@ == no_decision_failure(),
                }
            }
        },
{
    let mut bot = Bot::new(intelligence);
    let board = match Board::parse(board) {
        Ok(board) => board,
        Err(_) => {
            return Err("Invalid board".to_owned());
        },
    };
    let game = Game::parse(board, Player::Bot);
    let mut entries: Vec<(String, serde_json::Value)> = Vec::new();
    match bot.decide(&game) {
        Err(_) => {
            if game.actions(Player::Bot).len() > 0 {
                return Err("No action is worth the lowest evaluation.".to_owned());
            }
            entries.push(("decision".to_owned(), json_null()));
            entries.push(("result".to_owned(), serialize_result(&game)));
            assert(entries_of(entries@) =~= seq![
                ("decision"@, null_text()),
                ("result"@, result_text(game@.grid)),
            ]);
        },
        Ok((action, next)) => {
            entries.push(("decision".to_owned(), json_string(action.to_string())));
            entries.push(("result".to_owned(), serialize_result(&next)));
            assert(entries_of(entries@) =~= seq![
                ("decision"@, string_text(position_text(action.placement))),
                ("result"@, result_text(next@.grid)),
            ]);
        },
    }
    Ok(json_render(&json_object(entries)))
}

} // verus!
