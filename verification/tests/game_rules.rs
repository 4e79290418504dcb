use ai_server::board::{Board, Disk, Position, BOARD_SIZE};
use ai_server::errors::Error;
use ai_server::game::{
    max_best_evaluation, min_best_evaluation, Action, Game, Phase, Player,
};

fn board_of(text: &str) -> Board {
    Board::parse(text.to_string()).unwrap()
}

fn filled(light_rows: usize) -> Board {
    let mut board = Board::new();
    board.clear();
    for pos in Position::all() {
        let disk = if pos.row < light_rows { Disk::Light } else { Disk::Dark };
        board.place(disk, &pos).unwrap();
    }
    board
}

#[test]
fn new_game_is_the_standard_start() {
    let game = Game::new();
    assert_eq!(game.current_player(), Player::Bot);
    assert!(!game.is_over());
    for pos in Position::all() {
        let expected = match (pos.row, pos.col) {
            (3, 3) | (4, 4) => Some(Disk::Dark),
            (3, 4) | (4, 3) => Some(Disk::Light),
            _ => None,
        };
        assert_eq!(game.board().disk(&pos), expected);
    }
    assert_eq!(
        game.board().to_string(),
        "EEEEEEEE\nEEEEEEEE\nEEEEEEEE\nEEEDLEEE\nEEELDEEE\nEEEEEEEE\nEEEEEEEE\nEEEEEEEE"
    );
    assert!(Game::default() == Game::new());
}

#[test]
fn player_text() {
    assert_eq!(Player::parse('B'), Ok(Player::Bot));
    assert_eq!(Player::parse('H'), Ok(Player::Human));
    assert_eq!(
        Player::parse('b'),
        Err(Error::ParseError("Invalid character to parse into a player: b".to_string()))
    );
    assert_eq!(Player::Bot.to_string(), "B");
    assert_eq!(Player::Human.to_string(), "H");
    assert_eq!(Player::default(), Player::Bot);
    assert_eq!(Player::Bot.opponent(), Player::Human);
    assert_eq!(Player::Human.opponent(), Player::Bot);
    assert_eq!(Player::Bot.disk(), Disk::Light);
    assert_eq!(Player::Human.disk(), Disk::Dark);
}

#[test]
fn action_text() {
    let action = Action::parse(Player::Human, Position::new(2, 5));
    assert_eq!(action, Action { player: Player::Human, placement: Position::new(2, 5) });
    assert_eq!(action.to_string(), "2,5");
    assert_eq!(Action::default(), Action { player: Player::Bot, placement: Position::new(0, 0) });
}

#[test]
fn phases_by_turn() {
    assert_eq!(Phase::new(0), Phase::Early);
    assert_eq!(Phase::new(19), Phase::Early);
    assert_eq!(Phase::new(20), Phase::Mid);
    assert_eq!(Phase::new(39), Phase::Mid);
    assert_eq!(Phase::new(40), Phase::End);
    assert_eq!(Phase::new(60), Phase::End);
    assert_eq!(Phase::Early.to_index(), 0);
    assert_eq!(Phase::Mid.to_index(), 1);
    assert_eq!(Phase::End.to_index(), 2);
    assert_eq!(Phase::default(), Phase::Early);
}

#[test]
fn human_actions_from_the_start() {
    let game = Game::new();
    let found: Vec<String> =
        game.actions(Player::Human).iter().map(|action| action.to_string()).collect();
    assert_eq!(found, vec!["2,4", "3,5", "4,2", "5,3"]);
    for action in game.actions(Player::Human) {
        assert_eq!(action.player, Player::Human);
    }
}

#[test]
fn actions_come_row_by_row_and_once() {
    let board = board_of("EEEEEEEE\nEDDDEEEE\nEDLDEEEE\nEDDDEEEE\nEEEEEEEE");
    let game = Game::parse(board, Player::Bot);
    assert!(game.actions(Player::Human).is_empty());
    let found: Vec<String> =
        game.actions(Player::Bot).iter().map(|action| action.to_string()).collect();
    assert_eq!(found, vec!["0,0", "0,2", "0,4", "2,0", "2,4", "4,0", "4,2", "4,4"]);

    let board = board_of(
        "EEEEEEEE\nEEEEEEEE\nEELLLEEE\nEELDLEEE\nEELLLEEE\nEEEEEEEE\nEEEEEEEE\nEEEEEEEE",
    );
    let game = Game::parse(board, Player::Human);
    let found: Vec<String> =
        game.actions(Player::Human).iter().map(|action| action.to_string()).collect();
    assert_eq!(found, vec!["1,1", "1,3", "1,5", "3,1", "3,5", "5,1", "5,3", "5,5"]);
}

#[test]
fn result_turns_every_closed_line_and_no_other() {
    let board = board_of(
        "LEELEEEL\nEDEDEEDE\nEEDDDEEE\nLDDEDDDL\nEEDDDEEE\nEDEDEDEE\nEEEDEEEE\nEEELEEEE",
    );
    let game = Game::parse(board, Player::Bot);
    let next = game.result(&Action::parse(Player::Bot, Position::new(3, 3)));
    assert_eq!(next.current_player(), Player::Human);
    assert_eq!(
        next.board().to_string(),
        "LEELEEEL\nELELEEDE\nEELLDEEE\nLLLLLLLL\nEEDLDEEE\nEDELEDEE\nEEELEEEE\nEEELEEEE"
    );
}

#[test]
fn result_leaves_open_lines_alone() {
    let board = board_of("EDDDDDDD\nDEEEEEEE\nDEEEEEEE");
    let game = Game::parse(board, Player::Bot);
    let next = game.result(&Action::parse(Player::Bot, Position::new(0, 0)));
    assert_eq!(next.board().disk(&Position::new(0, 0)), Some(Disk::Light));
    for k in 1..BOARD_SIZE {
        assert_eq!(next.board().disk(&Position::new(0, k)), Some(Disk::Dark));
    }
    assert_eq!(next.board().disk(&Position::new(1, 0)), Some(Disk::Dark));
    assert_eq!(next.board().disk(&Position::new(2, 0)), Some(Disk::Dark));
}

#[test]
fn result_does_not_change_the_game_it_starts_from() {
    let game = Game::new();
    let next = game.result(&Action::parse(Player::Bot, Position::new(2, 3)));
    assert!(game == Game::new());
    assert_eq!(
        next.board().to_string(),
        "EEEEEEEE\nEEEEEEEE\nEEELEEEE\nEEELLEEE\nEEELDEEE\nEEEEEEEE\nEEEEEEEE\nEEEEEEEE"
    );
}

#[test]
fn evaluation_of_known_positions() {
    assert_eq!(Game::new().evaluate(), 0);

    let next = Game::new().result(&Action::parse(Player::Bot, Position::new(2, 3)));
    assert_eq!(next.evaluate(), 27);

    let board = board_of("LEEEEEEE\nEDEEEEEE\nEEEEEEEE\nEEEEEEEE\nEEEEEEEE");
    assert_eq!(Game::parse(board, Player::Bot).evaluate(), 5 * (100 + 10) + 5 * (1 - 0) - 0);
}

#[test]
fn evaluation_weights_change_with_the_phase() {
    let mut board = filled(4);
    assert_eq!(Game::parse(board, Player::Bot).evaluate(), 0);

    board.grid[7][7] = None;
    board.grid[7][6] = None;
    board.grid[7][5] = None;
    let game = Game::parse(board, Player::Bot);
    assert_eq!(game.actions(Player::Bot).len(), 3);
    assert_eq!(game.actions(Player::Human).len(), 0);
    assert_eq!(game.evaluate(), 2 * (396 - (396 - 100 + 10 - 30)) + 3 * 3);

    for col in 0..BOARD_SIZE {
        board.grid[6][col] = None;
        board.grid[5][col] = None;
    }
    board.grid[4][0] = None;
    board.grid[4][1] = None;
    let game = Game::parse(board, Player::Bot);
    let human = 396 - (100 - 10 + 30) - (94 - 34) - (20 + 2);
    let bot_moves = game.actions(Player::Bot).len() as i32;
    let human_moves = game.actions(Player::Human).len() as i32;
    assert_eq!(game.board().positions(Disk::Dark).len(), 11);
    assert_eq!(game.evaluate(), 4 * (396 - human) + 4 * (bot_moves - human_moves) - (32 - 11));
}

#[test]
fn extreme_evaluations() {
    assert_eq!(max_best_evaluation(), 1584);
    assert_eq!(min_best_evaluation(), -1584);

    let mut board = Board::new();
    for pos in Position::all() {
        match board.disk(&pos) {
            Some(Disk::Dark) => board.flip(&pos).unwrap(),
            None => board.place(Player::Bot.disk(), &pos).unwrap(),
            Some(Disk::Light) => (),
        }
    }
    assert_eq!(Game::parse(board, Player::default()).evaluate(), max_best_evaluation());
}

#[test]
fn evaluation_stays_between_the_extremes_in_an_even_game() {
    let mut game = Game::new();
    let mut player = Player::Bot;
    let mut plies = 0;
    while !game.is_over() {
        assert!(min_best_evaluation() <= game.evaluate());
        assert!(game.evaluate() <= max_best_evaluation());
        let actions = game.actions(player);
        if let Some(action) = actions.get(plies % actions.len().max(1)) {
            game = game.result(action);
            plies += 1;
        }
        player = player.opponent();
    }
    assert!(plies > 20);
}

#[test]
fn winner_of_a_finished_game() {
    let game = Game::parse(filled(5), Player::Bot);
    assert!(game.is_over());
    assert_eq!(game.winner(), Some(Player::Bot));
    assert_eq!(game.utility(), max_best_evaluation());

    let game = Game::parse(filled(3), Player::Bot);
    assert!(game.is_over());
    assert_eq!(game.winner(), Some(Player::Human));
    assert_eq!(game.utility(), min_best_evaluation());
}

#[test]
fn draw_has_no_winner_and_the_lowest_utility() {
    let board = filled(4);
    assert_eq!(board.positions(Disk::Light).len(), 32);
    assert_eq!(board.positions(Disk::Dark).len(), 32);
    let game = Game::parse(board, Player::Human);
    assert!(game.is_over());
    assert_eq!(game.winner(), None);
    assert_eq!(game.utility(), min_best_evaluation());
}

#[test]
fn game_ends_when_a_move_leaves_no_action() {
    let board = board_of("EDL\n\n\nEEEEEEEE\nEEEEEEEE");
    let game = Game::parse(board, Player::Bot);
    assert!(!game.is_over());
    let next = game.result(&Action::parse(Player::Bot, Position::new(0, 0)));
    assert!(next.is_over());
    assert_eq!(next.winner(), Some(Player::Bot));
    assert_eq!(next.utility(), max_best_evaluation());
}

#[test]
fn game_with_few_disks_is_in_the_early_phase() {
    let board = board_of("LDE\n\n\nEEEEEEEE\nEEEEEEEE");
    let game = Game::parse(board, Player::Bot);
    assert_eq!(game.evaluate(), 5 * (100 + 10) + 5 * (1 - 0) - (1 - 1));
}

#[test]
fn evaluation_of_a_board_out_of_play_may_pass_the_extremes() {
    let board = board_of("LEEEEEEL\n\n\nEEEEEEEE\nEEEEEEEE\n\n\nLEEEEEEL");
    assert_eq!(Game::parse(board, Player::Bot).evaluate(), 5 * 400 + 5 * 0 - 4);
    assert!(Game::parse(board, Player::Bot).evaluate() > max_best_evaluation());
}

fn replay(line: &str) -> Game {
    let mut game = Game::new();
    for step in line.split_whitespace() {
        let player = Player::parse(step.chars().next().unwrap()).unwrap();
        let placement = Position::parse(step[1..].to_string()).unwrap();
        let action = Action::parse(player, placement);
        assert!(game.actions(player).contains(&action));
        assert_eq!(game.current_player(), player);
        game = game.result(&action);
    }
    game
}

#[test]
fn evaluation_passes_the_extremes_in_lopsided_play() {
    let game = replay(
        "B5,4 H3,5 B2,5 H5,3 B5,2 H4,2 B3,2 H2,4 B1,4 H3,1 B2,0 H6,4 B4,6 H6,1 B7,0 H5,1 B7,5 \
         H7,1 B5,0 H6,0 B2,2 H1,1 B1,3 H6,2 B0,0 H2,6 B5,5 H3,0 B4,0 H6,6 B7,7 H1,6 B0,7 H1,2 \
         B0,2 H0,6 B2,7 H1,7 B7,3",
    );
    assert_eq!(game.evaluate(), 2865);
    assert!(game.evaluate() > max_best_evaluation());

    let game = replay(
        "B5,4 H5,5 B3,2 H6,4 B4,5 H3,5 B2,6 H2,1 B5,3 H5,2 B1,0 H2,5 B4,2 H2,3 B6,6 H7,7 B2,4 \
         H2,7 B1,4 H2,2 B3,6 H0,4 B0,3 H0,2 B1,6 H4,7 B6,2 H0,7 B0,6 H7,2 B7,1 H7,0 B1,1 H0,0 \
         B0,1 H6,3 B4,6 H5,7",
    );
    assert_eq!(game.evaluate(), -2776);
    assert!(game.evaluate() < min_best_evaluation());
}
