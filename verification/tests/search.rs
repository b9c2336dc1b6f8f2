use stack_solitaire::card::Card;
use stack_solitaire::heuristic::Heuristic;
use stack_solitaire::matrix::Matrix;
use stack_solitaire::moves::{Move, MoveValidity};
use stack_solitaire::optimize::{brute_force, optimize_solutions};
use stack_solitaire::plan::choose_solution;
use stack_solitaire::search::{find_multiple_wins, find_win, SearchLimits};
use stack_solitaire::stack::Stack;
use stack_solitaire::visited::Visited;

fn stack_of(text: &str) -> Stack {
    let mut stack = Stack::new();
    for character in text.chars() {
        stack.cards.push(Card::from_char(character).unwrap());
    }
    stack
}

fn layout(rows: [&str; 6]) -> Matrix {
    let mut matrix = Matrix::new();
    for (i, row) in rows.iter().enumerate() {
        matrix.stacks[i] = stack_of(row);
    }
    matrix
}

fn mv(from: usize, to: usize, count: usize) -> Move {
    Move { from, to, count }
}

fn nearly_won() -> Matrix {
    let mut matrix = layout(["TKDV09876", "TKDV09876", "TKDV09876", "TKDV", "098", "76"]);
    for i in 0..3 {
        matrix.stacks[i].collapsed = true;
    }
    matrix
}

fn replay(start: &Matrix, moves: &[Move], allow_cheats: bool) -> Matrix {
    let mut matrix = start.copy();
    for mov in moves {
        let validity = matrix.check_validity(*mov);
        assert_ne!(validity, MoveValidity::Invalid);
        if !allow_cheats {
            assert_eq!(validity, MoveValidity::ValidNormal);
        }
        assert!(matrix.move_stack(*mov));
    }
    matrix
}

fn limits(step_limit: usize, past_limit: usize) -> SearchLimits {
    SearchLimits { step_limit, past_limit }
}

#[test]
fn default_limits() {
    let usual = SearchLimits::new();
    assert_eq!(usual.step_limit, 2000);
    assert_eq!(usual.past_limit, 20000);
    assert_eq!(SearchLimits::default(), usual);
}

#[test]
fn search_without_moves_and_without_win_finds_nothing() {
    let mut matrix = layout(["6", "6", "6", "6", "8", "8"]);
    assert_eq!(matrix.valid_moves().len(), 30);
    let mut visited = Visited::new();
    let result = find_win(&mut matrix, &mut visited, false, Heuristic::HighestOrder, SearchLimits::new());
    assert!(result.is_none());
    assert_eq!(visited.len(), 1);
    assert!(visited.contains(&matrix.to_string()));
}

#[test]
fn search_with_every_stack_blocked_finds_nothing() {
    let mut matrix = layout(["6", "6", "6", "6", "8", "8"]);
    for i in 0..6 {
        matrix.stacks[i].cheated = true;
    }
    assert_eq!(matrix.valid_moves().len(), 0);
    let mut visited = Visited::new();
    let result = find_win(&mut matrix, &mut visited, true, Heuristic::Plain, SearchLimits::new());
    assert!(result.is_none());
    assert_eq!(visited.len(), 1);
}

#[test]
fn search_from_a_won_position_finds_it() {
    let mut matrix = layout(["TKDV09876", "TKDV09876", "TKDV09876", "TKDV09876", "", ""]);
    for i in 0..4 {
        matrix.stacks[i].collapsed = true;
    }
    let mut visited = Visited::new();
    let result = find_win(&mut matrix, &mut visited, true, Heuristic::HighestOrder, SearchLimits::new());
    let winner = result.unwrap();
    assert_eq!(winner.past_moves.len(), 0);
    assert!(winner.is_win());
}

#[test]
fn search_without_cheats_finds_a_clean_winning_line() {
    let start = nearly_won();
    let mut matrix = start.copy();
    let mut visited = Visited::new();
    let result = find_win(&mut matrix, &mut visited, false, Heuristic::HighestOrder, limits(2000, 1000000));
    let winner = result.unwrap();
    assert!(winner.is_win());
    let replayed = replay(&start, &winner.past_moves, false);
    assert!(replayed.is_win());
    assert_eq!(replayed.to_string(), winner.to_string());
    assert_eq!(matrix.to_string(), start.to_string());
    assert!(visited.contains(&start.to_string()));
    assert!(visited.contains(&winner.to_string()));
}

#[test]
fn search_with_cheats_finds_a_winning_line() {
    let start = nearly_won();
    for heuristic in [Heuristic::HighestOrder, Heuristic::MoveCount, Heuristic::Plain] {
        let mut matrix = start.copy();
        let mut visited = Visited::new();
        let result = find_win(&mut matrix, &mut visited, true, heuristic, SearchLimits::new());
        if let Some(winner) = result {
            assert!(winner.is_win());
            let replayed = replay(&start, &winner.past_moves, true);
            assert!(replayed.is_win());
            assert_eq!(replayed.to_string(), winner.to_string());
        }
        assert!(visited.len() >= 1);
        assert!(visited.len() <= 20001);
    }
}

#[test]
fn search_gives_up_when_too_much_was_seen() {
    let start = nearly_won();
    let mut matrix = start.copy();
    let mut visited = Visited::new();
    let result = find_win(&mut matrix, &mut visited, false, Heuristic::HighestOrder, limits(2000, 0));
    assert!(result.is_none());
    assert_eq!(visited.len(), 1);
}

#[test]
fn search_does_not_extend_a_line_past_the_step_limit() {
    let start = nearly_won();
    let mut matrix = start.copy();
    matrix.past_moves.push(mv(0, 0, 1));
    let mut visited = Visited::new();
    let result = find_win(&mut matrix, &mut visited, false, Heuristic::HighestOrder, limits(0, 1000));
    assert!(result.is_none());
    assert_eq!(visited.len(), 1);
}

#[test]
fn search_skips_positions_seen_before() {
    let start = nearly_won();
    let mut visited = Visited::new();
    let mut probe = start.copy();
    probe.save_moves(false, Heuristic::Plain);
    for (_, next) in probe.available_moves.iter() {
        visited.insert(next.to_string());
    }
    let seen = visited.len();
    let mut matrix = start.copy();
    let result = find_win(&mut matrix, &mut visited, false, Heuristic::HighestOrder, SearchLimits::new());
    assert!(result.is_none());
    assert_eq!(visited.len(), seen + 1);
}

#[test]
fn repeated_searches_sort_winners_and_end() {
    let start = nearly_won();
    let winners = find_multiple_wins(start.copy(), true, Heuristic::HighestOrder, limits(50, 3000));
    for i in 1..winners.len() {
        assert!(winners[i - 1].past_moves.len() <= winners[i].past_moves.len());
    }
    for winner in &winners {
        assert!(winner.is_win());
        let replayed = replay(&start, &winner.past_moves, true);
        assert_eq!(replayed.to_string(), winner.to_string());
    }
    assert!(!winners.is_empty());
}

#[test]
fn repeated_searches_without_cheats_stop_at_the_first_win() {
    let start = nearly_won();
    let winners = find_multiple_wins(start.copy(), false, Heuristic::HighestOrder, SearchLimits::new());
    assert_eq!(winners.len(), 1);
    let replayed = replay(&start, &winners[0].past_moves, false);
    assert!(replayed.is_win());
}

#[test]
fn repeated_searches_end_where_nothing_can_be_played() {
    let start = layout(["6", "6", "6", "6", "8", "8"]);
    let winners = find_multiple_wins(start, false, Heuristic::HighestOrder, SearchLimits::new());
    assert!(winners.is_empty());
}

#[test]
fn past_matrices_replays_the_line() {
    let start = nearly_won();
    let line = [mv(5, 4, 2), mv(4, 3, 5)];
    let mut winner = start.copy();
    for mov in line {
        winner = winner.copy_after_move(mov);
    }
    assert!(winner.is_win());
    let chain = winner.past_matrices(start.copy());
    assert_eq!(chain.len(), 2);
    assert_eq!(chain[0].to_string(), start.copy_after_move(line[0]).to_string());
    assert_eq!(chain[0].past_moves, vec![line[0]]);
    assert_eq!(chain[1].to_string(), winner.to_string());
    assert_eq!(chain[1].past_moves, vec![line[0], line[1]]);
    assert!(chain[1].is_win());
}

#[test]
fn brute_force_finds_the_shortest_line_below_the_bound() {
    let start = nearly_won();
    let mut matrix = start.copy();
    let mut discovered = Visited::new();
    let found = brute_force(&mut matrix, 4, &mut discovered).unwrap();
    assert_eq!(found.past_moves, vec![mv(4, 3, 3), mv(5, 3, 2)]);
    assert!(found.is_win());
    assert!(discovered.contains(&start.to_string()));
    assert!(discovered.contains(&found.to_string()));

    let mut again = start.copy();
    let mut other = Visited::new();
    assert!(brute_force(&mut again, 2, &mut other).is_none());
    let mut third = start.copy();
    let mut none = Visited::new();
    assert!(brute_force(&mut third, 0, &mut none).is_none());
    assert_eq!(none.len(), 1);
}

#[test]
fn optimizer_shortens_a_wasteful_line() {
    let start = nearly_won();
    let line = [mv(5, 4, 2), mv(4, 5, 5), mv(5, 4, 5), mv(4, 3, 5)];
    let mut winner = start.copy();
    for mov in line {
        assert_ne!(winner.check_validity(mov), MoveValidity::Invalid);
        winner = winner.copy_after_move(mov);
    }
    assert!(winner.is_win());
    assert_eq!(winner.past_moves.len(), 4);
    let winners = vec![winner];
    let best = optimize_solutions(start.copy(), &winners, 6);
    assert!(best.past_moves.len() < 4);
    assert_eq!(best.past_moves, vec![mv(5, 4, 2), mv(4, 3, 5)]);
    assert!(best.is_win());
    let replayed = replay(&start, &best.past_moves, false);
    assert!(replayed.is_win());
}

#[test]
fn optimizer_keeps_the_best_line_where_nothing_is_shorter() {
    let start = nearly_won();
    let line = [mv(5, 4, 2), mv(4, 3, 5)];
    let mut winner = start.copy();
    for mov in line {
        winner = winner.copy_after_move(mov);
    }
    let winners = vec![winner];
    let best = optimize_solutions(start.copy(), &winners, 6);
    assert_eq!(best.past_moves, vec![mv(5, 4, 2), mv(4, 3, 5)]);
}

#[test]
fn optimizer_with_depth_zero_changes_nothing() {
    let start = nearly_won();
    let line = [mv(5, 4, 2), mv(4, 5, 5), mv(5, 4, 5), mv(4, 3, 5)];
    let mut winner = start.copy();
    for mov in line {
        winner = winner.copy_after_move(mov);
    }
    let winners = vec![winner];
    let best = optimize_solutions(start.copy(), &winners, 0);
    assert_eq!(best.past_moves.len(), 4);
}

#[test]
fn choose_solution_picks_a_short_winning_line() {
    let start = nearly_won();
    let solution = choose_solution(&start, false, SearchLimits::new(), 6, 100).unwrap();
    assert!(solution.is_win());
    let replayed = replay(&start, &solution.past_moves, false);
    assert!(replayed.is_win());
}

#[test]
fn choose_solution_gives_up_where_nothing_can_be_played() {
    let start = layout(["6", "6", "6", "6", "8", "8"]);
    assert!(choose_solution(&start, false, SearchLimits::new(), 6, 100).is_none());
}

fn two_sixes_left() -> Matrix {
    let mut matrix = layout(["TKDV09876", "TKDV09876", "TKDV0987", "TKDV0987", "6", "6"]);
    matrix.stacks[0].collapsed = true;
    matrix.stacks[1].collapsed = true;
    matrix
}

fn played(start: &Matrix, line: &[Move]) -> Matrix {
    let mut matrix = start.copy();
    for mov in line {
        assert_ne!(matrix.check_validity(*mov), MoveValidity::Invalid);
        matrix = matrix.copy_after_move(*mov);
    }
    assert!(matrix.is_win());
    matrix
}

#[test]
fn optimizer_returns_the_shortest_winner_whatever_the_order() {
    let start = two_sixes_left();
    let long_line = [mv(4, 5, 1), mv(5, 2, 1), mv(5, 3, 1)];
    let short_line = [mv(4, 2, 1), mv(5, 3, 1)];
    assert_eq!(start.check_validity(long_line[0]), MoveValidity::ValidCheat);

    let longer_first = vec![played(&start, &long_line), played(&start, &short_line)];
    let best = optimize_solutions(start.copy(), &longer_first, 6);
    assert_eq!(best.past_moves, short_line.to_vec());
    assert!(best.is_win());
    for winner in &longer_first {
        assert!(best.past_moves.len() <= winner.past_moves.len());
    }

    let shorter_first = vec![played(&start, &short_line), played(&start, &long_line)];
    let same = optimize_solutions(start.copy(), &shorter_first, 6);
    assert_eq!(same.past_moves, short_line.to_vec());
}

#[test]
fn optimizer_keeps_the_first_of_equally_short_winners() {
    let start = two_sixes_left();
    let one = [mv(4, 2, 1), mv(5, 3, 1)];
    let other = [mv(5, 2, 1), mv(4, 3, 1)];
    let long_line = [mv(4, 5, 1), mv(5, 2, 1), mv(5, 3, 1)];
    let winners = vec![played(&start, &long_line), played(&start, &other), played(&start, &one)];
    let best = optimize_solutions(start.copy(), &winners, 6);
    assert_eq!(best.past_moves, other.to_vec());
}

#[test]
fn optimizer_shortens_below_every_winner_given() {
    let start = nearly_won();
    let wasteful = [mv(5, 4, 2), mv(4, 5, 5), mv(5, 4, 5), mv(4, 3, 5)];
    let more_wasteful =
        [mv(5, 4, 2), mv(4, 5, 5), mv(5, 4, 5), mv(4, 5, 5), mv(5, 4, 5), mv(4, 3, 5)];
    let winners = vec![played(&start, &more_wasteful), played(&start, &wasteful)];
    let best = optimize_solutions(start.copy(), &winners, 6);
    assert_eq!(best.past_moves.len(), 2);
    for winner in &winners {
        assert!(best.past_moves.len() < winner.past_moves.len());
    }
    let replayed = replay(&start, &best.past_moves, false);
    assert!(replayed.is_win());
}

#[test]
fn brute_force_finds_a_win_that_lies_below_the_bound() {
    let start = two_sixes_left();
    let mut matrix = start.copy();
    let mut discovered = Visited::new();
    let found = brute_force(&mut matrix, 3, &mut discovered).unwrap();
    assert_eq!(found.past_moves.len(), 2);
    assert_eq!(found.past_moves, vec![mv(4, 2, 1), mv(5, 3, 1)]);
    let replayed = replay(&start, &found.past_moves, false);
    assert!(replayed.is_win());

    let mut again = start.copy();
    let mut other = Visited::new();
    assert!(brute_force(&mut again, 2, &mut other).is_none());
}
