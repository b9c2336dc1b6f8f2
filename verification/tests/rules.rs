use stack_solitaire::card::Card;
use stack_solitaire::matrix::Matrix;
use stack_solitaire::moves::{Move, MoveValidity};
use stack_solitaire::stack::Stack;

fn stack_of(text: &str) -> Stack {
    let mut stack = Stack::new();
    for character in text.chars() {
        stack.cards.push(Card::from_char(character).unwrap());
    }
    stack
}

fn layout(rows: [&str; 6]) -> Matrix {
    let mut matrix = Matrix::new();
    for (i, row) in rows.iter().enumerate() {
        matrix.stacks[i] = stack_of(row);
    }
    matrix
}

fn mv(from: usize, to: usize, count: usize) -> Move {
    Move { from, to, count }
}

#[test]
fn card_characters_round_trip() {
    for character in ['6', '7', '8', '9', '0', 'V', 'D', 'K', 'T'] {
        let card = Card::from_char(character).unwrap();
        assert_eq!(card.to_char(), character);
    }
}

#[test]
fn card_reads_lower_case_and_one() {
    assert_eq!(Card::from_char('t'), Some(Card::Tits));
    assert_eq!(Card::from_char('k'), Some(Card::King));
    assert_eq!(Card::from_char('d'), Some(Card::Diva));
    assert_eq!(Card::from_char('v'), Some(Card::Viva));
    assert_eq!(Card::from_char('1'), Some(Card::Ten));
    assert_eq!(Card::from_char('0'), Some(Card::Ten));
}

#[test]
fn card_rejects_other_characters() {
    assert_eq!(Card::from_char('S'), None);
    assert_eq!(Card::from_char('_'), None);
    assert_eq!(Card::from_char('5'), None);
    assert_eq!(Card::from_char(' '), None);
}

#[test]
fn card_ranks_are_zero_to_eight() {
    let order = ['6', '7', '8', '9', '0', 'V', 'D', 'K', 'T'];
    for (rank, character) in order.iter().enumerate() {
        let card = Card::from_char(*character).unwrap();
        assert_eq!(card.rank(), rank);
        assert_eq!(Card::from_rank(rank), Some(card));
    }
    assert_eq!(Card::from_rank(9), None);
}

#[test]
fn run_length_of_short_stacks_is_their_length() {
    assert_eq!(stack_of("").highest_orderly_count(), 0);
    assert_eq!(stack_of("K").highest_orderly_count(), 1);
}

#[test]
fn run_length_counts_from_the_top() {
    assert_eq!(stack_of("TKD").highest_orderly_count(), 3);
    assert_eq!(stack_of("6TKD").highest_orderly_count(), 3);
    assert_eq!(stack_of("TK6").highest_orderly_count(), 1);
    assert_eq!(stack_of("TKDV09876").highest_orderly_count(), 9);
    assert_eq!(stack_of("67").highest_orderly_count(), 1);
    assert_eq!(stack_of("KK").highest_orderly_count(), 1);
}

#[test]
fn run_length_never_exceeds_stack_length() {
    for text in ["", "6", "76", "TKDV", "6789", "TKDV09876", "T6T6T6"] {
        let stack = stack_of(text);
        assert!(stack.highest_orderly_count() <= stack.cards.len());
    }
}

#[test]
fn is_orderly_on_empty_and_on_next_rank() {
    assert!(stack_of("").is_orderly(Card::Six));
    assert!(stack_of("T").is_orderly(Card::King));
    assert!(!stack_of("T").is_orderly(Card::Diva));
    assert!(!stack_of("K").is_orderly(Card::Tits));
    assert!(!stack_of("K").is_orderly(Card::King));
}

#[test]
fn single_card_in_order_is_valid_normal() {
    let matrix = layout(["TK", "6D", "", "", "", ""]);
    assert_eq!(matrix.check_validity(mv(1, 0, 1)), MoveValidity::ValidNormal);
    assert_eq!(matrix.check_validity(mv(0, 2, 1)), MoveValidity::ValidNormal);
}

#[test]
fn single_card_out_of_order_is_a_cheat() {
    let matrix = layout(["TK", "6D", "", "", "", ""]);
    assert_eq!(matrix.check_validity(mv(0, 1, 1)), MoveValidity::ValidCheat);
}

#[test]
fn cheated_card_cannot_cheat_again() {
    let mut matrix = layout(["TK", "6D", "9", "", "", ""]);
    matrix.stacks[0].cheated = true;
    assert_eq!(matrix.check_validity(mv(0, 2, 1)), MoveValidity::Invalid);
    assert_eq!(matrix.check_validity(mv(0, 3, 1)), MoveValidity::ValidNormal);
}

#[test]
fn same_stack_is_invalid() {
    let matrix = layout(["TK", "6D", "", "", "", ""]);
    assert_eq!(matrix.check_validity(mv(0, 0, 1)), MoveValidity::Invalid);
    assert_eq!(matrix.check_validity(mv(2, 2, 1)), MoveValidity::Invalid);
}

#[test]
fn collapsed_stacks_take_no_part() {
    let mut matrix = layout(["TKDV09876", "T", "", "", "", ""]);
    matrix.stacks[0].collapsed = true;
    assert_eq!(matrix.check_validity(mv(0, 2, 1)), MoveValidity::Invalid);
    assert_eq!(matrix.check_validity(mv(1, 0, 1)), MoveValidity::Invalid);
}

#[test]
fn cheated_destination_is_invalid() {
    let mut matrix = layout(["TK", "6D", "", "", "", ""]);
    matrix.stacks[1].cheated = true;
    assert_eq!(matrix.check_validity(mv(0, 1, 1)), MoveValidity::Invalid);
}

#[test]
fn malformed_moves_are_invalid() {
    let matrix = layout(["TK", "6D", "", "", "", ""]);
    assert_eq!(matrix.check_validity(mv(6, 0, 1)), MoveValidity::Invalid);
    assert_eq!(matrix.check_validity(mv(0, 6, 1)), MoveValidity::Invalid);
    assert_eq!(matrix.check_validity(mv(0, 1, 0)), MoveValidity::Invalid);
    assert_eq!(matrix.check_validity(mv(0, 1, 3)), MoveValidity::Invalid);
    assert_eq!(matrix.check_validity(mv(2, 1, 1)), MoveValidity::Invalid);
    assert_eq!(matrix.check_validity(mv(usize::MAX, 1, usize::MAX)), MoveValidity::Invalid);
}

#[test]
fn run_moves_as_a_whole_only() {
    let matrix = layout(["6TKD", "V", "", "9", "", ""]);
    assert_eq!(matrix.check_validity(mv(0, 2, 3)), MoveValidity::ValidNormal);
    assert_eq!(matrix.check_validity(mv(0, 2, 2)), MoveValidity::Invalid);
    assert_eq!(matrix.check_validity(mv(0, 2, 4)), MoveValidity::Invalid);
}

#[test]
fn run_never_cheats() {
    let matrix = layout(["KD", "T", "9", "", "", ""]);
    assert_eq!(matrix.check_validity(mv(0, 1, 2)), MoveValidity::ValidNormal);
    assert_eq!(matrix.check_validity(mv(0, 2, 2)), MoveValidity::Invalid);
}

#[test]
fn classification_repeats() {
    let matrix = layout(["TK", "6D", "9", "", "", ""]);
    for from in 0..7 {
        for to in 0..7 {
            for count in 0..4 {
                let first = matrix.check_validity(mv(from, to, count));
                let second = matrix.check_validity(mv(from, to, count));
                assert_eq!(first, second);
            }
        }
    }
    assert_eq!(matrix.to_string(), "STKS6DS9SSS");
}
