use ai_server::board::{Board, Position, BOARD_SIZE};
use ai_server::game::{Action, Game, Player};
use itertools::Itertools;

fn placements(game: &Game) -> Vec<String> {
    game.actions(Player::Bot).into_iter().map(|action| action.placement.to_string()).collect()
}

#[test]
fn actions() {
    let game = Game::new();

    assert_eq!(
        placements(&game).into_iter().sorted().collect_vec(),
        vec!["2,3", "3,2", "4,5", "5,4"].into_iter().map(|s| s.to_string()).sorted().collect_vec()
    );

    let mut board = Board::new();
    board.clear();
    for i in 1..BOARD_SIZE - 1 {
        board.place(Player::Human.disk(), &Position::new(i, 0)).unwrap();
    }
    board.place(Player::Bot.disk(), &Position::new(BOARD_SIZE - 1, 0)).unwrap();

    let game = Game::parse(board, Player::Bot);
    assert_eq!(
        placements(&game).into_iter().sorted().collect_vec(),
        vec!["0,0"].into_iter().map(|s| s.to_string()).sorted().collect_vec()
    )
}

#[test]
fn result() {
    let mut board = Board::new();

    for j in 1..BOARD_SIZE {
        board.place(Player::Human.disk(), &Position::new(0, j)).unwrap();
    }
    board.flip(&Position::new(0, BOARD_SIZE - 1)).unwrap();

    let game = Game::parse(board, Player::Bot);
    let game = game.result(&Action { player: Player::Bot, placement: Position::new(0, 0) });
    for j in 0..BOARD_SIZE {
        assert_eq!(game.board().disk(&Position::new(0, j)), Some(Player::Bot.disk()));
    }

    // -------------------------

    let mut board = *game.board();
    board.clear();

    for i in 1..BOARD_SIZE {
        board.place(Player::Human.disk(), &Position::new(i, i)).unwrap()
    }
    board.flip(&Position::new(BOARD_SIZE - 1, BOARD_SIZE - 1)).unwrap();

    let game = Game::parse(board, game.current_player());
    let game = game.result(&Action { player: Player::Bot, placement: Position::new(0, 0) });
    for i in 0..BOARD_SIZE {
        assert_eq!(game.board().disk(&Position::new(i, i)), Some(Player::Bot.disk()))
    }
}
