use ai_server::service::{actions, decide, evaluate, index, initial_board, result, Ratio};

const START: &str = "EEEEEEEE\nEEEEEEEE\nEEEEEEEE\nEEEDLEEE\nEEELDEEE\nEEEEEEEE\nEEEEEEEE\nEEEEEEEE";

fn text(s: &str) -> String {
    s.to_string()
}

#[test]
fn greeting() {
    assert_eq!(index(), "Hello World!");
}

#[test]
fn initial_board_is_the_standard_start() {
    assert_eq!(initial_board(), START);
}

#[test]
fn actions_of_the_initial_board() {
    let body = actions(initial_board(), text("B")).unwrap();
    assert_eq!(body, r#"["2,3","3,2","4,5","5,4"]"#);
    let mut listed: Vec<String> = serde_json::from_str(&body).unwrap();
    listed.sort();
    assert_eq!(listed, vec!["2,3", "3,2", "4,5", "5,4"]);

    let body = actions(initial_board(), text("H")).unwrap();
    assert_eq!(body, r#"["2,4","3,5","4,2","5,3"]"#);
}

#[test]
fn actions_of_a_board_without_any() {
    assert_eq!(actions(text("\n\n\nEEEEEEEE\nEEEEEEEE"), text("B")), Ok(text("[]")));
}

#[test]
fn unreadable_board_is_refused_everywhere() {
    let refused = Err(text("Invalid board"));
    assert_eq!(evaluate(text("EEEXEEEE")), Err(text("Invalid board")));
    assert_eq!(actions(text("EEEXEEEE"), text("B")), refused);
    assert_eq!(result(text("EEEXEEEE"), text("2,3"), text("B")), refused);
    assert_eq!(decide(text("EEEXEEEE"), 1), refused);
    assert_eq!(actions(text("EEEEEEEEE"), text("?")), refused);
    assert_eq!(result(text("EEEXEEEE"), text("?"), text("?")), refused);
}

#[test]
fn unreadable_player_is_refused() {
    let refused = Err(text("Invalid player"));
    assert_eq!(actions(initial_board(), text("")), refused);
    assert_eq!(actions(initial_board(), text("X")), refused);
    assert_eq!(actions(initial_board(), text("BH")), refused);
    assert_eq!(result(initial_board(), text("2,3"), text("")), refused);
    assert_eq!(result(initial_board(), text("2,3"), text("b")), refused);
    assert_eq!(result(initial_board(), text("?"), text("b")), refused);
}

#[test]
fn illegal_action_is_refused() {
    let refused = Err(text("Invalid action for the given player"));
    assert_eq!(result(initial_board(), text("0,0"), text("B")), refused);
    assert_eq!(result(initial_board(), text("3,3"), text("B")), refused);
    assert_eq!(result(initial_board(), text("2,4"), text("B")), refused);
    assert_eq!(result(initial_board(), text("2,3"), text("H")), refused);
    assert_eq!(result(initial_board(), text("9,9"), text("B")), refused);
    assert_eq!(result(initial_board(), text("nowhere"), text("B")), refused);
}

#[test]
fn result_of_a_legal_action() {
    assert_eq!(
        result(initial_board(), text("2,3"), text("B")),
        Ok(text(
            r#"{"board":"EEEEEEEE\nEEEEEEEE\nEEELEEEE\nEEELLEEE\nEEELDEEE\nEEEEEEEE\nEEEEEEEE\nEEEEEEEE"}"#
        ))
    );
    assert_eq!(
        result(initial_board(), text("2,4"), text("H")),
        Ok(text(
            r#"{"board":"EEEEEEEE\nEEEEEEEE\nEEEEDEEE\nEEEDDEEE\nEEELDEEE\nEEEEEEEE\nEEEEEEEE\nEEEEEEEE"}"#
        ))
    );
}

#[test]
fn result_that_ends_the_game_names_the_winner() {
    let empty_rows = "\n\n\nEEEEEEEE\nEEEEEEEE";
    assert_eq!(
        result(format!("EDL{}", empty_rows), text("0,0"), text("B")),
        Ok(text(
            r#"{"board":"LLLEEEEE\nEEEEEEEE\nEEEEEEEE\nEEEEEEEE\nEEEEEEEE\nEEEEEEEE\nEEEEEEEE\nEEEEEEEE","winner":"B"}"#
        ))
    );
    assert_eq!(
        result(format!("ELD{}", empty_rows), text("0,0"), text("H")),
        Ok(text(
            r#"{"board":"DDDEEEEE\nEEEEEEEE\nEEEEEEEE\nEEEEEEEE\nEEEEEEEE\nEEEEEEEE\nEEEEEEEE\nEEEEEEEE","winner":"H"}"#
        ))
    );
}

#[test]
fn decision_on_a_board_without_actions_is_null() {
    let board = "LLLLLLLL\nLLLLLLLL\nLLLLLLLL\nLLLLLLLL\nDDDDDDDD\nDDDDDDDD\nDDDDDDDD\nDDDDDDDD";
    let body = decide(text(board), 2).unwrap();
    assert_eq!(
        body,
        format!(
            r#"{{"decision":null,"result":{{"board":"{}","winner":null}}}}"#,
            board.replace('\n', "\\n")
        )
    );
    let value: serde_json::Value = serde_json::from_str(&body).unwrap();
    assert!(value["decision"].is_null());
    assert_eq!(value["result"]["board"].as_str(), Some(board));
    assert!(value["result"]["winner"].is_null());

    let body = decide(text("EEEEEEEE\nEDDDEEEE\nEDLDEEEE\nEDDDEEEE\nEEEEEEEE"), 1).unwrap();
    let value: serde_json::Value = serde_json::from_str(&body).unwrap();
    assert!(!value["decision"].is_null());
}

#[test]
fn decision_on_the_initial_board() {
    assert_eq!(
        decide(initial_board(), 0),
        Ok(text(
            r#"{"decision":"5,4","result":{"board":"EEEEEEEE\nEEEEEEEE\nEEEEEEEE\nEEEDLEEE\nEEELLEEE\nEEEELEEE\nEEEEEEEE\nEEEEEEEE"}}"#
        ))
    );
}

#[test]
fn decision_that_ends_the_game() {
    let body = decide(text("EDL\n\n\nEEEEEEEE\nEEEEEEEE"), 3).unwrap();
    let value: serde_json::Value = serde_json::from_str(&body).unwrap();
    assert_eq!(value["decision"].as_str(), Some("0,0"));
    assert_eq!(value["result"]["winner"].as_str(), Some("B"));
}

#[test]
fn evaluation_as_a_share() {
    assert_eq!(evaluate(initial_board()), Ok(Ratio { numerator: 1584, denominator: 3168 }));
    let all_light = "LLLLLLLL\n".repeat(8);
    assert_eq!(evaluate(all_light), Ok(Ratio { numerator: 3168, denominator: 3168 }));
    assert_eq!(
        evaluate(text("LDE\n\n\nEEEEEEEE\nEEEEEEEE")),
        Ok(Ratio { numerator: 555 + 1584, denominator: 3168 })
    );
}

#[test]
fn decision_is_refused_where_no_action_is_worth_the_floor() {
    let board = "DEEEEEED\nEEEEEEEE\nEEEEEEEE\nEEEDLEEE\nEEEEEEEE\nEEEEELDE\nEEEEEEEE\nDEEEEEED";
    assert_eq!(actions(text(board), text("B")), Ok(text(r#"["3,2","5,7"]"#)));
    assert_eq!(decide(text(board), 0), Err(text("No action is worth the lowest evaluation.")));
}

#[test]
fn result_refuses_a_position_with_other_fields() {
    let refused = Err(text("Invalid action for the given player"));
    assert_eq!(result(initial_board(), text("2,x,3"), text("B")), refused);
    assert_eq!(result(initial_board(), text("2,3,"), text("B")), refused);
    assert_eq!(result(initial_board(), text(",2,3"), text("B")), refused);
}
