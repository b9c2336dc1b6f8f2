use stack_solitaire::card::Card;
use stack_solitaire::heuristic::Heuristic;
use stack_solitaire::matrix::Matrix;
use stack_solitaire::moves::{Move, MoveValidity};
use stack_solitaire::stack::Stack;
use stack_solitaire::visited::Visited;

fn stack_of(text: &str) -> Stack {
    let mut stack = Stack::new();
    for character in text.chars() {
        stack.cards.push(Card::from_char(character).unwrap());
    }
    stack
}

fn layout(rows: [&str; 6]) -> Matrix {
    let mut matrix = Matrix::new();
    for (i, row) in rows.iter().enumerate() {
        matrix.stacks[i] = stack_of(row);
    }
    matrix
}

fn mv(from: usize, to: usize, count: usize) -> Move {
    Move { from, to, count }
}

#[test]
fn valid_moves_of_an_empty_board_are_none() {
    let matrix = layout(["", "", "", "", "", ""]);
    assert_eq!(matrix.valid_moves(), vec![]);
}

#[test]
fn valid_moves_are_listed_by_source_count_destination() {
    let matrix = layout(["KD", "T", "", "", "", ""]);
    let moves = matrix.valid_moves();
    let expected = vec![
        mv(0, 1, 1),
        mv(0, 2, 1),
        mv(0, 3, 1),
        mv(0, 4, 1),
        mv(0, 5, 1),
        mv(0, 1, 2),
        mv(0, 2, 2),
        mv(0, 3, 2),
        mv(0, 4, 2),
        mv(0, 5, 2),
        mv(1, 0, 1),
        mv(1, 2, 1),
        mv(1, 3, 1),
        mv(1, 4, 1),
        mv(1, 5, 1),
    ];
    assert_eq!(moves, expected);
}

#[test]
fn valid_moves_are_exactly_the_allowed_moves() {
    let matrix = layout(["TKD6V0", "987T60", "KDV987", "6TKDV0", "9876TK", "DV0987"]);
    let moves = matrix.valid_moves();
    for from in 0..6 {
        for to in 0..6 {
            for count in 1..10 {
                let mov = mv(from, to, count);
                let listed = moves.contains(&mov);
                let allowed = matrix.check_validity(mov) != MoveValidity::Invalid;
                assert_eq!(listed, allowed);
            }
        }
    }
}

#[test]
fn move_count_heuristic_counts_the_moves() {
    let matrix = layout(["KD", "T", "", "", "", ""]);
    assert_eq!(Heuristic::MoveCount.calculate(&matrix), 15);
    let empty = layout(["", "", "", "", "", ""]);
    assert_eq!(Heuristic::MoveCount.calculate(&empty), 0);
}

#[test]
fn highest_order_heuristic_is_forty_less_progress() {
    let empty = layout(["", "", "", "", "", ""]);
    assert_eq!(Heuristic::HighestOrder.calculate(&empty), 40);
    let matrix = layout(["KD", "T", "6TKD", "", "", ""]);
    assert_eq!(Heuristic::HighestOrder.calculate(&matrix), 40 - 2 - 1 - 3);
    let mut won = layout(["TKDV09876", "TKDV09876", "TKDV09876", "TKDV09876", "", ""]);
    for i in 0..4 {
        won.stacks[i].collapsed = true;
    }
    assert_eq!(Heuristic::HighestOrder.calculate(&won), 0);
    let mut partly = layout(["TKDV09876", "TKDV09876", "T", "", "", ""]);
    partly.stacks[0].collapsed = true;
    assert_eq!(Heuristic::HighestOrder.calculate(&partly), 40 - 10 - 9 - 1);
}

#[test]
fn highest_order_heuristic_stops_at_zero() {
    let mut matrix = layout(["", "", "", "", "", ""]);
    for i in 0..5 {
        matrix.stacks[i].collapsed = true;
    }
    assert_eq!(Heuristic::HighestOrder.calculate(&matrix), 0);
}

#[test]
fn plain_heuristic_is_zero() {
    let matrix = layout(["KD", "T", "6TKD", "", "", ""]);
    assert_eq!(Heuristic::Plain.calculate(&matrix), 0);
}

#[test]
fn key_marks_stacks_and_cheats() {
    let mut matrix = layout(["TK", "6D", "", "0V", "", "9"]);
    assert_eq!(matrix.to_string(), "STKS6DSS0VSS9");
    matrix.stacks[3].cheated = true;
    assert_eq!(matrix.to_string(), "STKS6DSS0V_SS9");
    matrix.stacks[0].collapsed = true;
    matrix.past_moves.push(mv(0, 1, 1));
    assert_eq!(matrix.to_string(), "STKS6DSS0V_SS9");
}

#[test]
fn key_tells_stack_order_apart() {
    let first = layout(["TK", "6D", "", "", "", ""]);
    let second = layout(["6D", "TK", "", "", "", ""]);
    let third = layout(["T", "K6D", "", "", "", ""]);
    assert_ne!(first.to_string(), second.to_string());
    assert_ne!(first.to_string(), third.to_string());
}

#[test]
fn visited_set_holds_each_key_once() {
    let mut visited = Visited::new();
    assert_eq!(visited.len(), 0);
    assert!(!visited.contains(&"STK".to_string()));
    assert!(visited.insert("STK".to_string()));
    assert!(visited.contains(&"STK".to_string()));
    assert!(!visited.contains(&"STKD".to_string()));
    assert!(!visited.insert("STK".to_string()));
    assert_eq!(visited.len(), 1);
    assert!(visited.insert("".to_string()));
    assert!(visited.insert("STKD".to_string()));
    assert_eq!(visited.len(), 3);
    assert!(visited.contains(&"".to_string()));
}

#[test]
fn visited_set_holds_many_keys() {
    let mut visited = Visited::new();
    for i in 0..2000 {
        assert!(visited.insert(format!("S{}", i)));
    }
    assert_eq!(visited.len(), 2000);
    for i in 0..2000 {
        assert!(visited.contains(&format!("S{}", i)));
        assert!(!visited.insert(format!("S{}", i)));
    }
    assert!(!visited.contains(&"S2000".to_string()));
    assert_eq!(visited.len(), 2000);
}

#[test]
fn save_moves_without_cheats_keeps_orderly_moves() {
    let mut matrix = layout(["KD", "T", "9", "", "", "0"]);
    matrix.save_moves(false, Heuristic::Plain);
    let moves: Vec<Move> = matrix.available_moves.iter().map(|pair| pair.0).collect();
    for mov in &moves {
        assert_eq!(matrix.check_validity(*mov), MoveValidity::ValidNormal);
    }
    let all = matrix.valid_moves();
    let orderly: Vec<Move> = all
        .iter()
        .copied()
        .filter(|mov| matrix.check_validity(*mov) == MoveValidity::ValidNormal)
        .collect();
    assert_eq!(moves, orderly);
    assert!(moves.len() < all.len());
}

#[test]
fn save_moves_with_cheats_keeps_all_moves_in_order() {
    let mut matrix = layout(["KD", "T", "9", "", "", "0"]);
    matrix.save_moves(true, Heuristic::Plain);
    let moves: Vec<Move> = matrix.available_moves.iter().map(|pair| pair.0).collect();
    assert_eq!(moves, matrix.valid_moves());
    for (mov, next) in matrix.available_moves.iter() {
        let expected = matrix.copy_after_move(*mov);
        assert_eq!(next.to_string(), expected.to_string());
        assert_eq!(next.past_moves, vec![*mov]);
    }
}

#[test]
fn save_moves_orders_by_score_and_keeps_ties_in_order() {
    let mut matrix = layout(["KD", "T", "9", "", "", "0"]);
    matrix.save_moves(true, Heuristic::HighestOrder);
    let listed = matrix.valid_moves();
    let scores: Vec<usize> = matrix
        .available_moves
        .iter()
        .map(|pair| Heuristic::HighestOrder.calculate(&pair.1))
        .collect();
    for i in 1..scores.len() {
        assert!(scores[i - 1] <= scores[i]);
    }
    assert_eq!(matrix.available_moves.len(), listed.len());
    for i in 1..scores.len() {
        if scores[i - 1] == scores[i] {
            let earlier = listed.iter().position(|m| *m == matrix.available_moves[i - 1].0);
            let later = listed.iter().position(|m| *m == matrix.available_moves[i].0);
            assert!(earlier.unwrap() < later.unwrap());
        }
    }
    assert_eq!(matrix.available_moves[0].0, mv(0, 3, 1));
    assert_eq!(scores[0], 35);
    assert_eq!(Heuristic::HighestOrder.calculate(&matrix.copy_after_move(mv(0, 1, 2))), 35);
    assert_eq!(Heuristic::HighestOrder.calculate(&matrix.copy_after_move(mv(0, 1, 1))), 36);
    assert_eq!(Heuristic::HighestOrder.calculate(&matrix.copy_after_move(mv(5, 0, 1))), 37);
    assert_eq!(scores[scores.len() - 1], 37);
}

#[test]
fn prune_drops_moves_into_seen_positions() {
    let mut matrix = layout(["KD", "T", "", "", "", ""]);
    matrix.save_moves(true, Heuristic::Plain);
    let before = matrix.available_moves.len();
    let mut visited = Visited::new();
    visited.insert(matrix.copy_after_move(mv(0, 1, 2)).to_string());
    visited.insert(matrix.copy_after_move(mv(1, 5, 1)).to_string());
    visited.insert("SSSSSS".to_string());
    matrix.prune(&visited);
    let moves: Vec<Move> = matrix.available_moves.iter().map(|pair| pair.0).collect();
    assert_eq!(moves.len(), before - 2);
    assert!(!moves.contains(&mv(0, 1, 2)));
    assert!(!moves.contains(&mv(1, 5, 1)));
    let expected: Vec<Move> = matrix
        .valid_moves()
        .into_iter()
        .filter(|mov| *mov != mv(0, 1, 2) && *mov != mv(1, 5, 1))
        .collect();
    assert_eq!(moves, expected);
}

#[test]
fn prune_goes_by_the_positions_that_are_stored() {
    let mut matrix = layout(["KD", "T", "", "", "", ""]);
    let seen_one = layout(["6", "", "", "", "", ""]);
    let seen_two = layout(["", "7", "", "", "", ""]);
    let unseen = layout(["", "", "8", "", "", ""]);
    matrix.available_moves.push((mv(0, 1, 1), seen_one.copy()));
    matrix.available_moves.push((mv(5, 5, 9), unseen.copy()));
    matrix.available_moves.push((mv(0, 1, 2), seen_two.copy()));
    matrix.available_moves.push((mv(1, 0, 1), unseen.copy()));
    let mut visited = Visited::new();
    visited.insert(seen_one.to_string());
    visited.insert(seen_two.to_string());
    let before = matrix.to_string();
    matrix.prune(&visited);
    let moves: Vec<Move> = matrix.available_moves.iter().map(|pair| pair.0).collect();
    assert_eq!(moves, vec![mv(5, 5, 9), mv(1, 0, 1)]);
    for pair in matrix.available_moves.iter() {
        assert_eq!(pair.1.to_string(), unseen.to_string());
    }
    assert_eq!(matrix.to_string(), before);
}

#[test]
fn prune_of_nothing_stored_leaves_nothing() {
    let mut matrix = layout(["KD", "T", "", "", "", ""]);
    let visited = Visited::new();
    matrix.prune(&visited);
    assert_eq!(matrix.available_moves.len(), 0);
}
