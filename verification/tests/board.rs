use ai_server::board::{Board, Direction, Disk, Position, BOARD_SIZE};

#[test]
fn new() {
    let board = Board::new();

    assert_eq!(BOARD_SIZE, 8);

    assert_eq!(board.grid[3][3], Some(Disk::Dark));
    assert_eq!(board.grid[4][4], Some(Disk::Dark));
    assert_eq!(board.grid[3][4], Some(Disk::Light));
    assert_eq!(board.grid[4][3], Some(Disk::Light));

    assert_eq!(
        board.to_string(),
        "\
        EEEEEEEE\n\
        EEEEEEEE\n\
        EEEEEEEE\n\
        EEEDLEEE\n\
        EEELDEEE\n\
        EEEEEEEE\n\
        EEEEEEEE\n\
        EEEEEEEE"
    )
}

#[test]
fn disk() {
    let mut board = Board::new();

    let pos = Position::new(0, 0);
    assert!(board.disk(&pos).is_none());

    board.grid[pos.row][pos.col] = Some(Disk::Dark);
    assert_eq!(board.disk(&pos), Some(Disk::Dark));
}

#[test]
fn flip() {
    let mut board = Board::new();

    let pos = Position::new(0, 0);
    assert!(board.flip(&pos).is_err());

    board.grid[0][0] = Some(Disk::Dark);
    assert!(board.flip(&pos).is_ok());
    assert_eq!(board.disk(&pos), Some(Disk::Light));

    assert!(board.flip(&pos).is_ok());
    assert_eq!(board.disk(&pos), Some(Disk::Dark));
}

fn neighbours_of(board: &Board, pos: &Position) -> Vec<String> {
    board.neighbours(pos).into_iter().map(|pos| pos.to_string()).collect()
}

#[test]
fn neighbours() {
    let board = Board::new();

    let pos = Position::new(0, 0);
    assert_eq!(neighbours_of(&board, &pos), vec!["0,1", "1,0", "1,1"]);

    let pos = Position::new(0, BOARD_SIZE - 1);
    assert_eq!(neighbours_of(&board, &pos), vec!["0,6", "1,6", "1,7"]);

    let pos = Position::new(BOARD_SIZE - 1, 0);
    assert_eq!(neighbours_of(&board, &pos), vec!["6,0", "6,1", "7,1"]);

    let pos = Position::new(BOARD_SIZE - 1, BOARD_SIZE - 1);
    assert_eq!(neighbours_of(&board, &pos), vec!["6,6", "6,7", "7,6"]);

    let pos = Position::new(0, 3);
    assert_eq!(neighbours_of(&board, &pos), vec!["0,2", "0,4", "1,2", "1,3", "1,4"]);

    let pos = Position::new(3, BOARD_SIZE - 1);
    assert_eq!(neighbours_of(&board, &pos), vec!["2,6", "2,7", "3,6", "4,6", "4,7"]);

    let pos = Position::new(BOARD_SIZE - 1, 3);
    assert_eq!(neighbours_of(&board, &pos), vec!["6,2", "6,3", "6,4", "7,2", "7,4"]);

    let pos = Position::new(3, 0);
    assert_eq!(neighbours_of(&board, &pos), vec!["2,0", "2,1", "3,1", "4,0", "4,1"]);

    let pos = Position::new(3, 3);
    assert_eq!(
        neighbours_of(&board, &pos),
        vec!["2,2", "2,3", "2,4", "3,2", "3,4", "4,2", "4,3", "4,4"]
    );
}

fn neighbour_of(board: &Board, pos: &Position, dir: Direction) -> Option<String> {
    board.neighbour(pos, dir).map(|neighbour| neighbour.to_string())
}

#[test]
fn neighbour() {
    let board = Board::new();

    let pos = Position::new(3, 3);
    assert_eq!(neighbour_of(&board, &pos, Direction::North), Some("2,3".to_string()));
    assert_eq!(neighbour_of(&board, &pos, Direction::NorthEast), Some("2,4".to_string()));
    assert_eq!(neighbour_of(&board, &pos, Direction::East), Some("3,4".to_string()));
    assert_eq!(neighbour_of(&board, &pos, Direction::SouthEast), Some("4,4".to_string()));
    assert_eq!(neighbour_of(&board, &pos, Direction::South), Some("4,3".to_string()));
    assert_eq!(neighbour_of(&board, &pos, Direction::SouthWest), Some("4,2".to_string()));
    assert_eq!(neighbour_of(&board, &pos, Direction::West), Some("3,2".to_string()));
    assert_eq!(neighbour_of(&board, &pos, Direction::NorthWest), Some("2,2".to_string()));

    let pos = Position::new(0, 0);
    assert_eq!(neighbour_of(&board, &pos, Direction::North), None);
    assert_eq!(neighbour_of(&board, &pos, Direction::NorthEast), None);
    assert_eq!(neighbour_of(&board, &pos, Direction::SouthWest), None);
    assert_eq!(neighbour_of(&board, &pos, Direction::West), None);
    assert_eq!(neighbour_of(&board, &pos, Direction::NorthWest), None);

    let pos = Position::new(BOARD_SIZE - 1, BOARD_SIZE - 1);
    assert_eq!(neighbour_of(&board, &pos, Direction::NorthEast), None);
    assert_eq!(neighbour_of(&board, &pos, Direction::East), None);
    assert_eq!(neighbour_of(&board, &pos, Direction::SouthEast), None);
    assert_eq!(neighbour_of(&board, &pos, Direction::South), None);
    assert_eq!(neighbour_of(&board, &pos, Direction::SouthWest), None);
}

#[test]
fn positions() {
    let mut board = Board::new();
    board.clear();

    board.grid[0][0] = Some(Disk::Dark);
    board.grid[1][1] = Some(Disk::Dark);
    board.grid[2][2] = Some(Disk::Light);

    let found: Vec<String> =
        board.positions(Disk::Dark).into_iter().map(|pos| pos.to_string()).collect();

    assert_eq!(found, vec!["0,0", "1,1"]);
}

#[test]
fn direction() {
    let center = Position::new(BOARD_SIZE / 2, BOARD_SIZE / 2);

    let target = Position::new(center.row - 2, center.col - 2);
    assert_eq!(center.direction(&target), Direction::NorthWest);

    let target = Position::new(center.row, center.col - 2);
    assert_eq!(center.direction(&target), Direction::West);

    let target = Position::new(center.row + 2, center.col - 2);
    assert_eq!(center.direction(&target), Direction::SouthWest);

    let target = Position::new(center.row + 2, center.col);
    assert_eq!(center.direction(&target), Direction::South);

    let target = Position::new(center.row + 2, center.col + 2);
    assert_eq!(center.direction(&target), Direction::SouthEast);

    let target = Position::new(center.row, center.col + 2);
    assert_eq!(center.direction(&target), Direction::East);

    let target = Position::new(center.row - 2, center.col + 2);
    assert_eq!(center.direction(&target), Direction::NorthEast);

    let target = Position::new(center.row - 2, center.col);
    assert_eq!(center.direction(&target), Direction::North);
}
