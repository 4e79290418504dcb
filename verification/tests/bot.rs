use ai_server::board::{Board, Position};
use ai_server::bot::Bot;
use ai_server::errors::Error;
use ai_server::game::{max_best_evaluation, min_best_evaluation, Action, Game, Player};

struct Search {
    limit: u32,
    nodes: u32,
}

impl Search {
    fn min_value(&mut self, game: &Game, max_best: i32, min_best: i32, depth: u32) -> i32 {
        if game.is_over() {
            return game.utility();
        }
        if depth > self.limit {
            return game.evaluate();
        }
        self.nodes += 1;
        let mut here = max_best_evaluation();
        for action in game.actions(Player::Human) {
            let value = self.max_value(&game.result(&action), max_best, min_best, depth + 1);
            here = here.min(value);
            if here <= min_best {
                return here;
            }
        }
        here
    }

    fn max_value(&mut self, game: &Game, max_best: i32, min_best: i32, depth: u32) -> i32 {
        if game.is_over() {
            return game.utility();
        }
        if depth > self.limit {
            return game.evaluate();
        }
        self.nodes += 1;
        let mut max_best = max_best;
        let mut here = min_best_evaluation();
        for action in game.actions(Player::Bot) {
            let value = self.min_value(&game.result(&action), max_best, min_best, depth + 1);
            here = here.max(value);
            if here >= min_best {
                return here;
            }
            max_best = max_best.max(here);
        }
        here
    }

    fn decide(&mut self, game: &Game) -> Option<Action> {
        self.nodes = 1;
        let mut bot_best = min_best_evaluation();
        let mut best_value = bot_best;
        let mut best = None;
        for action in game.actions(Player::Bot) {
            let value = self.min_value(&game.result(&action), bot_best, max_best_evaluation(), 1);
            if value >= best_value {
                best_value = value;
                best = Some(action);
            }
            bot_best = bot_best.max(best_value);
        }
        best
    }
}

fn midgames() -> Vec<Game> {
    let mut games = vec![Game::new()];
    let mut game = Game::new();
    let mut player = Player::Bot;
    let mut plies = 0;
    while !game.is_over() && plies < 40 {
        let actions = game.actions(player);
        if let Some(action) = actions.get((plies * 7 + 3) % actions.len().max(1)) {
            game = game.result(action);
            plies += 1;
            if plies % 6 == 0 {
                games.push(Game::parse(*game.board(), Player::Bot));
            }
        }
        player = player.opponent();
    }
    games
}

#[test]
fn decide_without_actions_is_refused() {
    let mut board = Board::new();
    board.clear();
    let game = Game::parse(board, Player::Bot);
    let mut bot = Bot::new(3);
    assert_eq!(
        bot.decide(&game).err(),
        Some(Error::InvalidArgument("No actions are available from the given game.".to_string()))
    );
    assert_eq!(bot.num_nodes_expanded, 1);
}

#[test]
fn decide_takes_the_last_of_equal_actions() {
    let game = Game::new();
    let mut bot = Bot::new(0);
    assert_eq!(bot.num_nodes_expanded, 0);
    let (action, next) = bot.decide(&game).unwrap();
    assert_eq!(action, Action { player: Player::Bot, placement: Position::new(5, 4) });
    assert!(next == game.result(&action));
    assert_eq!(next.current_player(), Player::Human);
    assert_eq!(bot.num_nodes_expanded, 1);
}

#[test]
fn decide_prefers_the_corner() {
    let board = Board::parse("EDL\nEDL\n\nEEEEEEEE\nEEEEEEEE".to_string()).unwrap();
    let game = Game::parse(board, Player::Bot);
    let placements: Vec<String> =
        game.actions(Player::Bot).iter().map(|action| action.to_string()).collect();
    assert_eq!(placements, vec!["0,0", "1,0", "2,0"]);
    let mut bot = Bot::new(0);
    let (action, next) = bot.decide(&game).unwrap();
    assert_eq!(action.to_string(), "0,0");
    assert_eq!(next.board().to_string().lines().next(), Some("LLLEEEEE"));
}

#[test]
fn decide_agrees_with_a_plain_search() {
    for game in midgames() {
        for limit in 0..4 {
            let mut search = Search { limit, nodes: 0 };
            let expected = search.decide(&game);
            let mut bot = Bot::new(limit);
            match bot.decide(&game) {
                Ok((action, next)) => {
                    assert_eq!(Some(action), expected);
                    assert!(next == game.result(&action));
                }
                Err(_) => assert_eq!(expected, None),
            }
            assert_eq!(bot.num_nodes_expanded, search.nodes);
        }
    }
}

#[test]
fn decide_expands_the_nodes_above_the_limit() {
    let game = Game::new();
    let mut bot = Bot::new(1);
    assert_eq!(bot.nodes_expanded(), 0);
    bot.decide(&game).unwrap();
    assert_eq!(bot.num_nodes_expanded, 1 + 4);
    assert_eq!(bot.nodes_expanded(), 1 + 4);
}

#[test]
fn decide_again_gives_the_same_answer() {
    let game = Game::new().result(&Action::parse(Player::Human, Position::new(2, 4)));
    let mut bot = Bot::new(2);
    let first = bot.decide(&game).unwrap();
    let nodes = bot.num_nodes_expanded;
    let second = bot.decide(&game).unwrap();
    assert_eq!(first.0, second.0);
    assert!(first.1 == second.1);
    assert_eq!(bot.num_nodes_expanded, nodes);
    let third = Bot::new(2).decide(&game).unwrap();
    assert_eq!(first.0, third.0);
}

#[test]
fn decide_finds_nothing_worth_the_lowest_evaluation() {
    let board = Board::parse(
        "DEEEEEED\nEEEEEEEE\nEEEEEEEE\nEEEDLEEE\nEEEEEEEE\nEEEEELDE\nEEEEEEEE\nDEEEEEED".to_string(),
    )
    .unwrap();
    let game = Game::parse(board, Player::Bot);
    let placements: Vec<String> =
        game.actions(Player::Bot).iter().map(|action| action.to_string()).collect();
    assert_eq!(placements, vec!["3,2", "5,7"]);
    let next = game.result(&Action::parse(Player::Bot, Position::new(3, 2)));
    assert!(!next.is_over());
    assert_eq!(next.evaluate(), 5 * (6 + 10 - 400 - 1) + 5 * (1 - 1) - (4 - 5));
    for action in game.actions(Player::Bot) {
        let next = game.result(&action);
        assert!(!next.is_over());
        assert!(next.evaluate() < min_best_evaluation());
    }

    let mut bot = Bot::new(0);
    assert_eq!(
        bot.decide(&game).err(),
        Some(Error::InvalidArgument("No action is worth the lowest evaluation.".to_string()))
    );
    assert_eq!(bot.num_nodes_expanded, 1);
}
