use ai_server::board::{Board, Direction, Disk, Position};
use ai_server::game::{Action, Game, Player};
use std::collections::BTreeSet;

struct Dice(u64);

impl Dice {
    fn roll(&mut self, sides: u64) -> u64 {
        self.0 = self.0.wrapping_mul(6364136223846793005).wrapping_add(1442695040888963407);
        (self.0 >> 33) % sides
    }
}

fn scattered(dice: &mut Dice, fill: u64) -> Board {
    let mut board = Board::new();
    board.clear();
    for pos in Position::all() {
        if dice.roll(100) < fill {
            let disk = if dice.roll(2) == 0 { Disk::Dark } else { Disk::Light };
            board.place(disk, &pos).unwrap();
        }
    }
    board
}

fn walked_actions(board: &Board, player: Player) -> BTreeSet<(usize, usize)> {
    let mut found = BTreeSet::new();
    for position in board.positions(player.disk()) {
        for direction in Direction::all() {
            let mut distance = 1;
            let mut walker = board.neighbour(&position, direction);
            while let Some(cell) = walker {
                match board.disk(&cell) {
                    None => {
                        if distance > 1 {
                            found.insert((cell.row, cell.col));
                        }
                        break;
                    }
                    Some(disk) if disk != player.opponent().disk() => break,
                    Some(_) => {
                        distance += 1;
                        walker = board.neighbour(&cell, direction);
                    }
                }
            }
        }
    }
    found
}

fn turned_line_by_line(board: &Board, action: &Action) -> Board {
    let mut board = *board;
    board.place(action.player.disk(), &action.placement).unwrap();
    for dir in Direction::all() {
        let Some(mut walker) = board.neighbour(&action.placement, dir) else {
            continue;
        };
        let mut path = Vec::new();
        while board.disk(&walker) == Some(action.player.opponent().disk()) {
            path.push(walker);
            match board.neighbour(&walker, dir) {
                Some(next) => walker = next,
                None => break,
            }
        }
        if board.disk(&walker) == Some(action.player.disk()) {
            for pos in path {
                board.flip(&pos).unwrap();
            }
        }
    }
    board
}

#[test]
fn actions_are_the_cells_that_walks_from_own_disks_reach() {
    let mut dice = Dice(7);
    for round in 0..300 {
        let board = scattered(&mut dice, 20 + (round % 7) * 10);
        let game = Game::parse(board, Player::Bot);
        for player in [Player::Bot, Player::Human] {
            let listed: Vec<(usize, usize)> = game
                .actions(player)
                .iter()
                .map(|action| (action.placement.row, action.placement.col))
                .collect();
            let walked: Vec<(usize, usize)> = walked_actions(&board, player).into_iter().collect();
            assert_eq!(listed, walked);
            assert!(game.actions(player).iter().all(|action| action.player == player));
        }
        assert_eq!(
            game.is_over(),
            walked_actions(&board, Player::Bot).is_empty()
                && walked_actions(&board, Player::Human).is_empty()
        );
    }
}

#[test]
fn result_turns_what_turning_line_by_line_turns() {
    let mut dice = Dice(11);
    let mut moves = 0;
    for round in 0..300 {
        let board = scattered(&mut dice, 20 + (round % 7) * 10);
        let game = Game::parse(board, Player::Human);
        for player in [Player::Bot, Player::Human] {
            for action in game.actions(player) {
                let next = game.result(&action);
                assert!(*next.board() == turned_line_by_line(&board, &action));
                assert_eq!(next.current_player(), player.opponent());
                moves += 1;
            }
        }
        for pos in Position::all() {
            if board.disk(&pos).is_none() {
                let action = Action::parse(Player::Bot, pos);
                assert!(*game.result(&action).board() == turned_line_by_line(&board, &action));
            }
        }
    }
    assert!(moves > 500);
}

#[test]
fn winner_follows_the_disk_counts() {
    let mut dice = Dice(13);
    let mut finished = 0;
    for _ in 0..300 {
        let board = scattered(&mut dice, 96);
        let game = Game::parse(board, Player::Bot);
        if game.is_over() {
            finished += 1;
            let bot = board.positions(Disk::Light).len();
            let human = board.positions(Disk::Dark).len();
            let expected = if bot > human {
                Some(Player::Bot)
            } else if human > bot {
                Some(Player::Human)
            } else {
                None
            };
            assert_eq!(game.winner(), expected);
        }
    }
    assert!(finished > 10);
}

#[test]
fn evaluation_follows_the_formula() {
    let mut dice = Dice(17);
    for round in 0..300 {
        let board = scattered(&mut dice, 5 + (round % 10) * 10);
        let game = Game::parse(board, Player::Bot);
        let bot = board.positions(Disk::Light);
        let human = board.positions(Disk::Dark);
        let turn = (bot.len() + human.len()) as i32 - 4;
        let phase = if turn < 20 {
            0
        } else if turn < 40 {
            1
        } else {
            2
        };
        let placement: i32 = bot.iter().map(|p| p.weight()).sum::<i32>()
            - human.iter().map(|p| p.weight()).sum::<i32>();
        let mobility =
            game.actions(Player::Bot).len() as i32 - game.actions(Player::Human).len() as i32;
        let disks = bot.len() as i32 - human.len() as i32;
        assert_eq!(
            game.evaluate(),
            [5, 4, 2][phase] * placement + [5, 4, 3][phase] * mobility + [-1, -1, 0][phase] * disks
        );
    }
}
