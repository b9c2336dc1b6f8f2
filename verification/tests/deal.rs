use rand::rngs::SmallRng;
use rand::SeedableRng;
use stack_solitaire::card::Card;
use stack_solitaire::deal::full_suit;
use stack_solitaire::heuristic::Heuristic;
use stack_solitaire::matrix::Matrix;
use stack_solitaire::moves::MoveValidity;
use stack_solitaire::search::{find_win, SearchLimits};
use stack_solitaire::visited::Visited;

fn card_counts(matrix: &Matrix) -> [usize; 9] {
    let mut counts = [0usize; 9];
    for stack in matrix.stacks.iter() {
        for card in stack.cards.iter() {
            counts[card.rank()] += 1;
        }
    }
    counts
}

#[test]
fn full_suit_has_every_rank_once_lowest_first() {
    let suit = full_suit();
    let text: String = suit.iter().map(|card| card.to_char()).collect();
    assert_eq!(text, "67890VDKT");
}

#[test]
fn deal_card_moves_the_picked_card() {
    let mut matrix = Matrix::new();
    let mut left = full_suit();
    assert!(matrix.deal_card(&mut left, 2, 4));
    assert_eq!(matrix.stacks[4].cards, vec![Card::Eight]);
    let text: String = left.iter().map(|card| card.to_char()).collect();
    assert_eq!(text, "6790VDKT");
    assert!(matrix.deal_card(&mut left, 7, 4));
    assert_eq!(matrix.stacks[4].cards, vec![Card::Eight, Card::Tits]);
    assert_eq!(left.len(), 7);
    assert_eq!(matrix.past_moves.len(), 0);
}

#[test]
fn deal_card_refuses_what_is_not_there() {
    let mut matrix = Matrix::new();
    let mut left = full_suit();
    assert!(!matrix.deal_card(&mut left, 9, 0));
    assert!(!matrix.deal_card(&mut left, 0, 6));
    assert_eq!(left.len(), 9);
    assert_eq!(matrix.to_string(), "SSSSSS");
}

#[test]
fn random_deal_has_six_stacks_of_six_and_every_rank_four_times() {
    for seed in [0u64, 1, 2, 1337, 99999] {
        let mut rng = SmallRng::seed_from_u64(seed);
        for _ in 0..5 {
            let matrix = Matrix::random(&mut rng);
            for stack in matrix.stacks.iter() {
                assert_eq!(stack.cards.len(), 6);
                assert!(!stack.collapsed);
                assert!(!stack.cheated);
            }
            assert_eq!(card_counts(&matrix), [4usize; 9]);
            assert_eq!(matrix.past_moves.len(), 0);
            assert_eq!(matrix.available_moves.len(), 0);
        }
    }
}

#[test]
fn random_deals_differ() {
    let mut rng = SmallRng::seed_from_u64(1337);
    let first = Matrix::random(&mut rng);
    let mut differs = false;
    for _ in 0..10 {
        let next = Matrix::random(&mut rng);
        if next.to_string() != first.to_string() {
            differs = true;
        }
    }
    assert!(differs);
}

#[test]
fn search_on_a_random_deal_keeps_the_cards_and_the_rules() {
    let mut rng = SmallRng::seed_from_u64(1337);
    let start = Matrix::random(&mut rng);
    let mut matrix = start.copy();
    let mut visited = Visited::new();
    let limits = SearchLimits { step_limit: 200, past_limit: 300 };
    let result = find_win(&mut matrix, &mut visited, true, Heuristic::HighestOrder, limits);
    assert!(visited.len() <= 301);
    assert_eq!(matrix.to_string(), start.to_string());
    if let Some(winner) = result {
        assert!(winner.is_win());
        assert_eq!(card_counts(&winner), [4usize; 9]);
        let mut replayed = start.copy();
        for mov in winner.past_moves.iter() {
            assert_ne!(replayed.check_validity(*mov), MoveValidity::Invalid);
            assert!(replayed.move_stack(*mov));
            assert_eq!(card_counts(&replayed), [4usize; 9]);
        }
        assert_eq!(replayed.to_string(), winner.to_string());
    }
}

#[test]
fn search_with_the_usual_limits_stays_within_them() {
    let mut rng = SmallRng::seed_from_u64(7);
    let start = Matrix::random(&mut rng);
    let mut matrix = start.copy();
    let mut visited = Visited::new();
    let limits = SearchLimits::new();
    let result = find_win(&mut matrix, &mut visited, true, Heuristic::HighestOrder, limits);
    assert!(visited.len() <= limits.past_limit + 1);
    if let Some(winner) = result {
        assert!(winner.is_win());
        assert!(winner.past_moves.len() <= limits.step_limit + 1);
        let mut replayed = start.copy();
        for mov in winner.past_moves.iter() {
            assert!(replayed.move_stack(*mov));
        }
        assert!(replayed.is_win());
        assert_eq!(card_counts(&replayed), [4usize; 9]);
    }
}
