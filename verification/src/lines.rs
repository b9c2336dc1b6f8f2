//! Lines of play, and that what the searches find are winning lines.

use vstd::prelude::*;
use crate::candidates::{leads_to_unseen, ordered_moves, playable_moves, wanted, weight_after};
use crate::enumerate::{all_moves, allowed_on, legal_moves, lemma_legal_moves_are_the_allowed};
use crate::filters::{lemma_filter_is_part, lemma_filter_keeps};
use crate::heuristic::Heuristic;
use crate::matrix::{allowed, is_won, stacks_after, MatrixView, STACKS};
use crate::moves::Move;
use crate::optimize::{
    better_of, exhaust, exhaust_each, improve_all, improve_along, lemma_shortest_upto, optimized,
    shortest_of, shorter_of,
};
use crate::order::lemma_stable_sort;
use crate::replay::{lemma_stacks_after_all_add, lemma_stacks_after_all_first, stacks_after_all};
use crate::search::{collect_wins, search, search_each, SearchLimits};
use crate::stack::StackView;

verus! {

/// A search may play `mov` on `stacks`: the rules allow it, and it is no cheat
/// unless cheats are allowed.
pub open spec fn playable(stacks: Seq<StackView>, mov: Move, allow_cheats: bool) -> bool {
    allowed(stacks, mov) && wanted(stacks, allow_cheats)(mov)
}

/// The moves are a line of play from `stacks`: each of them may be played
/// when its turn comes.
pub open spec fn is_line(stacks: Seq<StackView>, moves: Seq<Move>, allow_cheats: bool) -> bool
    decreases moves.len(),
{
    moves.len() == 0 || {
        &&& is_line(stacks, moves.drop_last(), allow_cheats)
        &&& playable(stacks_after_all(stacks, moves.drop_last()), moves.last(), allow_cheats)
    }
}

/// The moves played in `w` after those played in `m`.
pub open spec fn line_between(m: MatrixView, w: MatrixView) -> Seq<Move> {
    w.past_moves.skip(m.past_moves.len() as int)
}

/// `w` is a won position reached from `m`: the moves played in `w` are those
/// played in `m` and then a line of play from `m` that leads to the stacks of
/// `w`, and `w` is won.
pub open spec fn is_win_from(m: MatrixView, w: MatrixView, allow_cheats: bool) -> bool {
    &&& m.past_moves.len() <= w.past_moves.len()
    &&& w == m.after_all(line_between(m, w))
    &&& is_line(m.stacks, line_between(m, w), allow_cheats)
    &&& is_won(w.stacks)
}

/// A line of play is a move that may be played, and then a line of play from
/// where it leads.
pub proof fn lemma_line_first(stacks: Seq<StackView>, moves: Seq<Move>, allow_cheats: bool)
    requires
        moves.len() > 0,
    ensures
        is_line(stacks, moves, allow_cheats) <==> playable(stacks, moves.first(), allow_cheats)
            && is_line(stacks_after(stacks, moves.first()), moves.drop_first(), allow_cheats),
    decreases moves.len(),
{
    let rest = moves.drop_last();
    if moves.len() == 1 {
        assert(rest == Seq::<Move>::empty());
        assert(moves.drop_first() == Seq::<Move>::empty());
        assert(moves.first() == moves.last());
        assert(stacks_after_all(stacks, rest) == stacks);
        assert(is_line(stacks, rest, allow_cheats));
        assert(is_line(stacks_after(stacks, moves.first()), moves.drop_first(), allow_cheats));
    } else {
        let tail = moves.drop_first();
        lemma_line_first(stacks, rest, allow_cheats);
        lemma_stacks_after_all_first(stacks, rest);
        assert(rest.drop_first() == tail.drop_last());
        assert(rest.first() == moves.first());
        assert(tail.last() == moves.last());
        assert(is_line(stacks_after(stacks, moves.first()), tail, allow_cheats) <==> is_line(
            stacks_after(stacks, moves.first()),
            tail.drop_last(),
            allow_cheats,
        ) && playable(
            stacks_after_all(stacks_after(stacks, moves.first()), tail.drop_last()),
            tail.last(),
            allow_cheats,
        ));
    }
}

/// Two lines of play, the second from where the first leads, are one line of
/// play; and a line of play cut in two is two lines of play.
pub proof fn lemma_line_add(stacks: Seq<StackView>, a: Seq<Move>, b: Seq<Move>, allow_cheats: bool)
    ensures
        is_line(stacks, a + b, allow_cheats) <==> is_line(stacks, a, allow_cheats) && is_line(
            stacks_after_all(stacks, a),
            b,
            allow_cheats,
        ),
    decreases b.len(),
{
    if b.len() == 0 {
        assert(a + b == a);
    } else {
        lemma_line_add(stacks, a, b.drop_last(), allow_cheats);
        lemma_stacks_after_all_add(stacks, a, b.drop_last());
        assert((a + b).drop_last() == a + b.drop_last());
        assert((a + b).last() == b.last());
    }
}

/// A line of play without cheats is a line of play where cheats are allowed.
pub proof fn lemma_line_without_cheats(stacks: Seq<StackView>, moves: Seq<Move>)
    requires
        is_line(stacks, moves, false),
    ensures
        is_line(stacks, moves, true),
    decreases moves.len(),
{
    if moves.len() > 0 {
        lemma_line_without_cheats(stacks, moves.drop_last());
    }
}

/// A won position reached from where `mov` leads is a won position reached
/// from where `mov` may be played.
pub proof fn lemma_win_after_move(m: MatrixView, mov: Move, w: MatrixView, allow_cheats: bool)
    requires
        playable(m.stacks, mov, allow_cheats),
        is_win_from(m.after(mov), w, allow_cheats),
    ensures
        is_win_from(m, w, allow_cheats),
{
    let rest = line_between(m.after(mov), w);
    let line = line_between(m, w);
    assert(w.past_moves == m.past_moves.push(mov) + rest);
    assert(line == seq![mov] + rest);
    assert(line.first() == mov);
    assert(line.drop_first() == rest);
    lemma_line_first(m.stacks, line, allow_cheats);
    lemma_stacks_after_all_first(m.stacks, line);
    assert(m.past_moves + line == m.past_moves.push(mov) + rest);
}

/// A won position reached from where a line of play leads is a won position
/// reached from where the line starts.
pub proof fn lemma_win_after_line(
    m: MatrixView,
    line: Seq<Move>,
    w: MatrixView,
    allow_cheats: bool,
)
    requires
        is_line(m.stacks, line, allow_cheats),
        is_win_from(m.after_all(line), w, allow_cheats),
    ensures
        is_win_from(m, w, allow_cheats),
{
    let rest = line_between(m.after_all(line), w);
    let whole = line_between(m, w);
    assert(w.past_moves == (m.past_moves + line) + rest);
    assert(whole == line + rest);
    lemma_line_add(m.stacks, line, rest, allow_cheats);
    lemma_stacks_after_all_add(m.stacks, line, rest);
    assert(m.past_moves + whole == (m.past_moves + line) + rest);
}

/// A position that is won is a won position reached from itself.
pub proof fn lemma_win_at_once(m: MatrixView, allow_cheats: bool)
    requires
        is_won(m.stacks),
    ensures
        is_win_from(m, m, allow_cheats),
{
    assert(line_between(m, m) == Seq::<Move>::empty());
    assert(m.past_moves + Seq::<Move>::empty() == m.past_moves);
}

/// Every move a search may try may be played.
pub proof fn lemma_ordered_moves_are_playable(
    stacks: Seq<StackView>,
    allow_cheats: bool,
    heuristic: Heuristic,
    seen: Set<Seq<char>>,
    i: int,
)
    requires
        0 <= i < ordered_moves(stacks, allow_cheats, heuristic).filter(
            leads_to_unseen(stacks, seen),
        ).len(),
    ensures
        playable(
            stacks,
            ordered_moves(stacks, allow_cheats, heuristic).filter(leads_to_unseen(stacks, seen))[i],
            allow_cheats,
        ),
{
    let ordered = ordered_moves(stacks, allow_cheats, heuristic);
    let unseen = ordered.filter(leads_to_unseen(stacks, seen));
    let mov = unseen[i];
    lemma_filter_is_part(ordered, leads_to_unseen(stacks, seen), i);
    lemma_stable_sort(playable_moves(stacks, allow_cheats), weight_after(stacks, heuristic));
    vstd::seq_lib::to_multiset_contains(ordered, mov);
    vstd::seq_lib::to_multiset_contains(playable_moves(stacks, allow_cheats), mov);
    lemma_playable_moves_are_playable(stacks, allow_cheats, mov);
}

/// The moves listed for a search may each be played.
pub proof fn lemma_playable_moves_are_playable(
    stacks: Seq<StackView>,
    allow_cheats: bool,
    mov: Move,
)
    requires
        playable_moves(stacks, allow_cheats).contains(mov),
    ensures
        playable(stacks, mov, allow_cheats),
{
    let legal = legal_moves(stacks);
    let listed = playable_moves(stacks, allow_cheats);
    let i = listed.index_of(mov);
    lemma_filter_is_part(legal, wanted(stacks, allow_cheats), i);
    let j = legal.index_of(mov);
    lemma_filter_is_part(all_moves(), allowed_on(stacks), j);
}

/// What a search finds is a won position reached from where it started by
/// moves that it may play: without a cheat among them where cheats are not
/// allowed.
pub proof fn lemma_search_finds_wins(
    m: MatrixView,
    seen: Set<Seq<char>>,
    allow_cheats: bool,
    heuristic: Heuristic,
    limits: SearchLimits,
)
    ensures
        search(m, seen, allow_cheats, heuristic, limits).found matches Some(w) ==> is_win_from(
            m,
            w,
            allow_cheats,
        ),
    decreases crate::search::room(m, limits), 1nat, 0nat,
{
    let seen = seen.insert(crate::key::position_key(m.stacks));
    if seen.len() <= limits.past_limit {
        let moves = ordered_moves(m.stacks, allow_cheats, heuristic).filter(
            leads_to_unseen(m.stacks, seen),
        );
        if moves.len() == 0 {
            if is_won(m.stacks) {
                lemma_win_at_once(m, allow_cheats);
            }
        } else if m.past_moves.len() <= limits.step_limit {
            assert forall|i: int| 0 <= i < moves.len() implies playable(
                m.stacks,
                #[trigger] moves[i],
                allow_cheats,
            ) by {
                lemma_ordered_moves_are_playable(m.stacks, allow_cheats, heuristic, seen, i);
            }
            lemma_search_each_finds_wins(m, moves, 0, seen, allow_cheats, heuristic, limits);
        }
    }
}

/// What the searches from where the moves lead find is a won position reached
/// from where the moves are played.
pub proof fn lemma_search_each_finds_wins(
    m: MatrixView,
    moves: Seq<Move>,
    i: nat,
    seen: Set<Seq<char>>,
    allow_cheats: bool,
    heuristic: Heuristic,
    limits: SearchLimits,
)
    requires
        forall|k: int| 0 <= k < moves.len() ==> playable(m.stacks, #[trigger] moves[k], allow_cheats),
    ensures
        search_each(m, moves, i, seen, allow_cheats, heuristic, limits).found matches Some(w)
            ==> is_win_from(m, w, allow_cheats),
    decreases crate::search::room(m, limits), 0nat, moves.len() - i,
{
    if i < moves.len() && m.past_moves.len() <= limits.step_limit {
        let next = m.after(moves[i as int]);
        let tried = search(next, seen, allow_cheats, heuristic, limits);
        lemma_search_finds_wins(next, seen, allow_cheats, heuristic, limits);
        match tried.found {
            Some(w) => {
                lemma_win_after_move(m, moves[i as int], w, allow_cheats);
            },
            None => {
                lemma_search_each_finds_wins(
                    m,
                    moves,
                    i + 1,
                    tried.seen,
                    allow_cheats,
                    heuristic,
                    limits,
                );
            },
        }
    }
}

/// Every position that repeated searches find is a won position reached from
/// where they started by moves that they may play.
pub proof fn lemma_collected_wins(
    m: MatrixView,
    seen: Set<Seq<char>>,
    allow_cheats: bool,
    heuristic: Heuristic,
    limits: SearchLimits,
    i: int,
)
    requires
        0 <= i < collect_wins(m, seen, allow_cheats, heuristic, limits).len(),
    ensures
        is_win_from(m, collect_wins(m, seen, allow_cheats, heuristic, limits)[i], allow_cheats),
    decreases crate::search::searches_left(seen, limits),
{
    if seen.len() < limits.past_limit {
        let round = search(m, seen, allow_cheats, heuristic, limits);
        lemma_search_finds_wins(m, seen, allow_cheats, heuristic, limits);
        let won = crate::search::won_in(round);
        if i >= won.len() {
            lemma_collected_wins(m, round.seen, allow_cheats, heuristic, limits, i - won.len());
        }
    }
}

/// Where nothing may be played, a search finds the position it starts from if
/// that is won, and nothing if it is not; unless it has seen too much.
pub proof fn lemma_search_without_moves(
    m: MatrixView,
    seen: Set<Seq<char>>,
    allow_cheats: bool,
    heuristic: Heuristic,
    limits: SearchLimits,
)
    requires
        playable_moves(m.stacks, allow_cheats).len() == 0,
        seen.insert(crate::key::position_key(m.stacks)).len() <= limits.past_limit,
    ensures
        search(m, seen, allow_cheats, heuristic, limits).found == if is_won(m.stacks) {
            Some(m)
        } else {
            None
        },
        search(m, seen, allow_cheats, heuristic, limits).seen == seen.insert(
            crate::key::position_key(m.stacks),
        ),
{
    let seen = seen.insert(crate::key::position_key(m.stacks));
    lemma_stable_sort(playable_moves(m.stacks, allow_cheats), weight_after(m.stacks, heuristic));
    ordered_moves(m.stacks, allow_cheats, heuristic).lemma_filter_len(
        leads_to_unseen(m.stacks, seen),
    );
}

/// What the search through every line of play finds is a won position reached
/// from where it started without a cheat, by fewer moves in all than the
/// bound.
pub proof fn lemma_exhaust_finds_wins(m: MatrixView, max_len: nat, seen: Set<Seq<char>>)
    ensures
        exhaust(m, max_len, seen).found matches Some(w) ==> is_win_from(m, w, false)
            && w.past_moves.len() < max_len,
    decreases crate::optimize::moves_left(m, max_len), 1nat, 0nat,
{
    if m.past_moves.len() < max_len {
        let moves = playable_moves(m.stacks, false);
        if moves.len() == 0 {
            if is_won(m.stacks) {
                lemma_win_at_once(m, false);
            }
        } else {
            assert forall|i: int| 0 <= i < moves.len() implies playable(
                m.stacks,
                #[trigger] moves[i],
                false,
            ) by {
                lemma_playable_moves_are_playable(m.stacks, false, moves[i]);
            }
            lemma_exhaust_each_finds_wins(
                m,
                moves,
                0,
                max_len,
                None,
                seen.insert(crate::key::position_key(m.stacks)),
            );
        }
    }
}

/// What the searches through every line of play from where the moves lead
/// find is a won position reached from where the moves are played, if what
/// was found before is one.
pub proof fn lemma_exhaust_each_finds_wins(
    m: MatrixView,
    moves: Seq<Move>,
    i: nat,
    max_len: nat,
    best: Option<MatrixView>,
    seen: Set<Seq<char>>,
)
    requires
        forall|k: int| 0 <= k < moves.len() ==> playable(m.stacks, #[trigger] moves[k], false),
        best matches Some(b) ==> is_win_from(m, b, false) && b.past_moves.len() < max_len,
    ensures
        exhaust_each(m, moves, i, max_len, best, seen).found matches Some(w) ==> is_win_from(
            m,
            w,
            false,
        ) && w.past_moves.len() < max_len,
    decreases crate::optimize::moves_left(m, max_len), 0nat, moves.len() - i,
{
    if i < moves.len() && m.past_moves.len() < max_len {
        let next = m.after(moves[i as int]);
        let tried = exhaust(next, max_len, seen);
        lemma_exhaust_finds_wins(next, max_len, seen);
        match tried.found {
            Some(w) => {
                lemma_win_after_move(m, moves[i as int], w, false);
            },
            None => {},
        }
        lemma_exhaust_each_finds_wins(
            m,
            moves,
            i + 1,
            max_len,
            shorter_of(best, tried.found),
            tried.seen,
        );
    }
}

/// A move that may be played is among the moves listed for a search.
pub proof fn lemma_playable_is_listed(stacks: Seq<StackView>, allow_cheats: bool, mov: Move)
    requires
        stacks.len() == STACKS,
        playable(stacks, mov, allow_cheats),
    ensures
        playable_moves(stacks, allow_cheats).contains(mov),
{
    let legal = legal_moves(stacks);
    lemma_legal_moves_are_the_allowed(stacks, mov);
    let i = legal.index_of(mov);
    lemma_filter_keeps(legal, wanted(stacks, allow_cheats), i);
}

/// Nothing may be played on `stacks`.
pub open spec fn is_stuck(stacks: Seq<StackView>, allow_cheats: bool) -> bool {
    playable_moves(stacks, allow_cheats).len() == 0
}

/// The search through every line of play misses no win below its bound: if
/// a line of play without cheats leads from `m` to a won position in which
/// nothing more may be played, and `m` with this line has fewer moves than
/// the bound, then the search finds a won position, reached by no more moves
/// than this line reaches its own.
pub proof fn lemma_exhaust_finds_line(
    m: MatrixView,
    max_len: nat,
    seen: Set<Seq<char>>,
    line: Seq<Move>,
)
    requires
        m.stacks.len() == STACKS,
        is_line(m.stacks, line, false),
        is_won(stacks_after_all(m.stacks, line)),
        is_stuck(stacks_after_all(m.stacks, line), false),
        m.past_moves.len() + line.len() < max_len,
    ensures
        exhaust(m, max_len, seen).found matches Some(w) && w.past_moves.len()
            <= m.past_moves.len() + line.len(),
    decreases line.len(), 1nat, 0nat,
{
    if line.len() == 0 {
        assert(stacks_after_all(m.stacks, line) == m.stacks);
    } else {
        let moves = playable_moves(m.stacks, false);
        lemma_line_first(m.stacks, line, false);
        lemma_playable_is_listed(m.stacks, false, line.first());
        let k = moves.index_of(line.first());
        lemma_exhaust_each_finds_line(
            m,
            moves,
            0,
            max_len,
            None,
            seen.insert(crate::key::position_key(m.stacks)),
            k,
            line,
        );
    }
}

/// The searches through every line of play from where the moves lead miss no
/// win below the bound: if `moves[k]` starts a line of play without cheats
/// that leads from `m` to a won position in which nothing more may be played,
/// then from `moves[k]` on what was found is a won position reached by no
/// more moves than this line reaches its own.
pub proof fn lemma_exhaust_each_finds_line(
    m: MatrixView,
    moves: Seq<Move>,
    i: nat,
    max_len: nat,
    best: Option<MatrixView>,
    seen: Set<Seq<char>>,
    k: int,
    line: Seq<Move>,
)
    requires
        m.stacks.len() == STACKS,
        line.len() > 0,
        0 <= k < moves.len(),
        moves[k] == line.first(),
        is_line(m.stacks, line, false),
        is_won(stacks_after_all(m.stacks, line)),
        is_stuck(stacks_after_all(m.stacks, line), false),
        m.past_moves.len() + line.len() < max_len,
        i <= k || (best matches Some(b) && b.past_moves.len() <= m.past_moves.len() + line.len()),
    ensures
        exhaust_each(m, moves, i, max_len, best, seen).found matches Some(w)
            && w.past_moves.len() <= m.past_moves.len() + line.len(),
    decreases line.len(), 0nat, moves.len() - i,
{
    if i < moves.len() {
        let next = m.after(moves[i as int]);
        let tried = exhaust(next, max_len, seen);
        if i == k {
            lemma_line_first(m.stacks, line, false);
            lemma_stacks_after_all_first(m.stacks, line);
            lemma_exhaust_finds_line(next, max_len, seen, line.drop_first());
        }
        lemma_exhaust_each_finds_line(
            m,
            moves,
            i + 1,
            max_len,
            shorter_of(best, tried.found),
            tried.seen,
            k,
            line,
        );
    }
}

/// Searching a line again takes a shortcut that lies within reach: if the
/// position after the first `j` moves of `line` is searched, and a line of
/// play without cheats leads from it to a won position in which nothing more
/// may be played, by fewer moves in all than the best line has, then the
/// best line after the search is shorter than the best line before.
pub proof fn lemma_improve_along_takes_shortcut(
    start: MatrixView,
    line: Seq<Move>,
    j: nat,
    best: MatrixView,
    depth: nat,
    shortcut: Seq<Move>,
)
    requires
        j >= 1,
        start.stacks.len() == STACKS,
        start.after_all(line.take(j as int)).past_moves.len() <= best.past_moves.len(),
        best.past_moves.len() <= start.after_all(line.take(j as int)).past_moves.len() + depth,
        is_line(start.after_all(line.take(j as int)).stacks, shortcut, false),
        is_won(stacks_after_all(start.after_all(line.take(j as int)).stacks, shortcut)),
        is_stuck(stacks_after_all(start.after_all(line.take(j as int)).stacks, shortcut), false),
        start.after_all(line.take(j as int)).past_moves.len() + shortcut.len()
            < best.past_moves.len(),
    ensures
        improve_along(start, line, j, best, depth).past_moves.len() < best.past_moves.len(),
{
    let at = start.after_all(line.take(j as int));
    let tried = exhaust(at, best.past_moves.len(), Set::<Seq<char>>::empty());
    crate::laws::lemma_moves_keep_stacks(start.stacks, line.take(j as int));
    lemma_exhaust_finds_line(at, best.past_moves.len(), Set::<Seq<char>>::empty(), shortcut);
    lemma_improve_along_never_longer(
        start,
        line,
        (j - 1) as nat,
        better_of(best, tried.found),
        depth,
    );
}

/// Searching a line again from its first `j` moves downwards reaches a
/// shortcut further down: if the best line has at most `n` moves, and after
/// the first `reach` moves of `line`, played from the deal `start`, a line of
/// play without cheats leads to a won position in which nothing more may be
/// played, by fewer than `n` moves in all and within `depth` of `n`, then the
/// best line after the search has fewer than `n` moves.
pub proof fn lemma_improve_along_reaches_shortcut(
    start: MatrixView,
    line: Seq<Move>,
    j: nat,
    best: MatrixView,
    depth: nat,
    n: nat,
    reach: nat,
    shortcut: Seq<Move>,
)
    requires
        start.stacks.len() == STACKS,
        start.past_moves.len() == 0,
        1 <= reach <= j <= line.len(),
        best.past_moves.len() <= n <= reach + depth,
        is_line(start.after_all(line.take(reach as int)).stacks, shortcut, false),
        is_won(stacks_after_all(start.after_all(line.take(reach as int)).stacks, shortcut)),
        is_stuck(stacks_after_all(start.after_all(line.take(reach as int)).stacks, shortcut), false),
        reach + shortcut.len() < n,
    ensures
        improve_along(start, line, j, best, depth).past_moves.len() < n,
    decreases j,
{
    let at = start.after_all(line.take(j as int));
    assert(at.past_moves.len() == j);
    if best.past_moves.len() < n {
        lemma_improve_along_never_longer(start, line, j, best, depth);
    } else if best.past_moves.len() < at.past_moves.len() {
        lemma_improve_along_reaches_shortcut(
            start,
            line,
            (j - 1) as nat,
            best,
            depth,
            n,
            reach,
            shortcut,
        );
    } else if j == reach {
        lemma_improve_along_takes_shortcut(start, line, j, best, depth, shortcut);
    } else {
        let tried = exhaust(at, best.past_moves.len(), Set::<Seq<char>>::empty());
        lemma_improve_along_reaches_shortcut(
            start,
            line,
            (j - 1) as nat,
            better_of(best, tried.found),
            depth,
            n,
            reach,
            shortcut,
        );
    }
}

/// Searching the lines again takes a shortcut that lies within reach on one
/// of them: if the best line has at most `n` moves, and on the line of
/// `winners[at]`, after its first `reach` moves and before its last two, a
/// line of play without cheats leads to a won position in which nothing more
/// may be played, by fewer than `n` moves in all and within `depth` of `n`,
/// then the best line after the searches has fewer than `n` moves.
pub proof fn lemma_improve_all_takes_shortcut(
    start: MatrixView,
    winners: Seq<MatrixView>,
    k: nat,
    best: MatrixView,
    depth: nat,
    n: nat,
    at: int,
    reach: nat,
    shortcut: Seq<Move>,
)
    requires
        start.stacks.len() == STACKS,
        start.past_moves.len() == 0,
        k <= at < winners.len(),
        1 <= reach <= crate::optimize::scan_from(winners[at].past_moves),
        best.past_moves.len() <= n <= reach + depth,
        is_line(
            start.after_all(winners[at].past_moves.take(reach as int)).stacks,
            shortcut,
            false,
        ),
        is_won(
            stacks_after_all(
                start.after_all(winners[at].past_moves.take(reach as int)).stacks,
                shortcut,
            ),
        ),
        is_stuck(
            stacks_after_all(
                start.after_all(winners[at].past_moves.take(reach as int)).stacks,
                shortcut,
            ),
            false,
        ),
        reach + shortcut.len() < n,
    ensures
        improve_all(start, winners, k, best, depth).past_moves.len() < n,
    decreases winners.len() - k,
{
    let line = winners[k as int].past_moves;
    let from = crate::optimize::scan_from(line);
    let next = improve_along(start, line, from, best, depth);
    if k == at {
        lemma_improve_along_reaches_shortcut(start, line, from, best, depth, n, reach, shortcut);
        lemma_improve_all_never_longer(start, winners, k + 1, next, depth);
    } else {
        lemma_improve_along_never_longer(start, line, from, best, depth);
        lemma_improve_all_takes_shortcut(
            start,
            winners,
            k + 1,
            next,
            depth,
            n,
            at,
            reach,
            shortcut,
        );
    }
}

/// The optimizer returns a line shorter than every line it was given where a
/// shortcut lies within reach: if on the line of `winners[at]`, played from
/// the deal `start`, after its first `reach` moves and before its last two,
/// a line of play without cheats leads to a won position in which nothing
/// more may be played, by fewer moves in all than the shortest of `winners`
/// has and within `depth` of that number, then the result has fewer moves
/// than the shortest of `winners`.
pub proof fn lemma_optimizer_takes_shortcut(
    start: MatrixView,
    winners: Seq<MatrixView>,
    depth: nat,
    at: int,
    reach: nat,
    shortcut: Seq<Move>,
)
    requires
        start.stacks.len() == STACKS,
        start.past_moves.len() == 0,
        0 <= at < winners.len(),
        1 <= reach <= crate::optimize::scan_from(winners[at].past_moves),
        shortest_of(winners).past_moves.len() <= reach + depth,
        is_line(
            start.after_all(winners[at].past_moves.take(reach as int)).stacks,
            shortcut,
            false,
        ),
        is_won(
            stacks_after_all(
                start.after_all(winners[at].past_moves.take(reach as int)).stacks,
                shortcut,
            ),
        ),
        is_stuck(
            stacks_after_all(
                start.after_all(winners[at].past_moves.take(reach as int)).stacks,
                shortcut,
            ),
            false,
        ),
        reach + shortcut.len() < shortest_of(winners).past_moves.len(),
    ensures
        optimized(start, winners, depth).past_moves.len() < shortest_of(winners).past_moves.len(),
        forall|i: int|
            0 <= i < winners.len() ==> optimized(start, winners, depth).past_moves.len() < (
            #[trigger] winners[i]).past_moves.len(),
{
    let first = shortest_of(winners);
    lemma_shortest_upto(winners, winners.len());
    lemma_improve_all_takes_shortcut(
        start,
        winners,
        0,
        first,
        depth,
        first.past_moves.len(),
        at,
        reach,
        shortcut,
    );
}

/// A won position reached without a cheat is a won position reached where
/// cheats are allowed.
pub proof fn lemma_win_without_cheats(m: MatrixView, w: MatrixView)
    requires
        is_win_from(m, w, false),
    ensures
        is_win_from(m, w, true),
{
    lemma_line_without_cheats(m.stacks, line_between(m, w));
}

/// Searching a line again never makes the best line longer.
pub proof fn lemma_improve_along_never_longer(
    start: MatrixView,
    line: Seq<Move>,
    j: nat,
    best: MatrixView,
    depth: nat,
)
    ensures
        improve_along(start, line, j, best, depth).past_moves.len() <= best.past_moves.len(),
    decreases j,
{
    if j > 0 {
        let at = start.after_all(line.take(j as int));
        if best.past_moves.len() > at.past_moves.len() + depth {
        } else if best.past_moves.len() < at.past_moves.len() {
            lemma_improve_along_never_longer(start, line, (j - 1) as nat, best, depth);
        } else {
            let tried = exhaust(at, best.past_moves.len(), Set::<Seq<char>>::empty());
            lemma_improve_along_never_longer(
                start,
                line,
                (j - 1) as nat,
                better_of(best, tried.found),
                depth,
            );
        }
    }
}

/// Searching lines again never makes the best line longer.
pub proof fn lemma_improve_all_never_longer(
    start: MatrixView,
    winners: Seq<MatrixView>,
    k: nat,
    best: MatrixView,
    depth: nat,
)
    ensures
        improve_all(start, winners, k, best, depth).past_moves.len() <= best.past_moves.len(),
    decreases winners.len() - k,
{
    if k < winners.len() {
        let line = winners[k as int].past_moves;
        let next = improve_along(start, line, crate::optimize::scan_from(line), best, depth);
        lemma_improve_along_never_longer(start, line, crate::optimize::scan_from(line), best, depth);
        lemma_improve_all_never_longer(start, winners, k + 1, next, depth);
    }
}

/// Searching a winning line again gives a winning line that is no longer than
/// the best before: if `line` is a line of play from the deal `start` and the
/// best line so far leads from `start` to a won position, so does the best
/// line after the search.
pub proof fn lemma_improve_along(
    start: MatrixView,
    line: Seq<Move>,
    j: nat,
    best: MatrixView,
    depth: nat,
)
    requires
        j <= line.len(),
        is_line(start.stacks, line, true),
        is_win_from(start, best, true),
    ensures
        is_win_from(start, improve_along(start, line, j, best, depth), true),
        improve_along(start, line, j, best, depth).past_moves.len() <= best.past_moves.len(),
    decreases j,
{
    if j > 0 {
        let head = line.take(j as int);
        let at = start.after_all(head);
        assert(line == head + line.skip(j as int));
        lemma_line_add(start.stacks, head, line.skip(j as int), true);
        if best.past_moves.len() > at.past_moves.len() + depth {
        } else if best.past_moves.len() < at.past_moves.len() {
            lemma_improve_along(start, line, (j - 1) as nat, best, depth);
        } else {
            let tried = exhaust(at, best.past_moves.len(), Set::<Seq<char>>::empty());
            lemma_exhaust_finds_wins(at, best.past_moves.len(), Set::<Seq<char>>::empty());
            match tried.found {
                Some(w) => {
                    lemma_win_without_cheats(at, w);
                    lemma_win_after_line(start, head, w, true);
                },
                None => {},
            }
            lemma_improve_along(start, line, (j - 1) as nat, better_of(best, tried.found), depth);
        }
    }
}

/// Searching winning lines again gives a winning line that is no longer than
/// the first of them: if every one of `winners` is a won position reached
/// from the deal `start`, and so is the best line so far, then so is the
/// result.
pub proof fn lemma_improve_all(
    start: MatrixView,
    winners: Seq<MatrixView>,
    k: nat,
    best: MatrixView,
    depth: nat,
)
    requires
        start.past_moves.len() == 0,
        forall|i: int| 0 <= i < winners.len() ==> is_win_from(start, #[trigger] winners[i], true),
        is_win_from(start, best, true),
    ensures
        is_win_from(start, improve_all(start, winners, k, best, depth), true),
        improve_all(start, winners, k, best, depth).past_moves.len() <= best.past_moves.len(),
    decreases winners.len() - k,
{
    if k < winners.len() {
        let line = winners[k as int].past_moves;
        assert(line_between(start, winners[k as int]) == line);
        lemma_improve_along(start, line, crate::optimize::scan_from(line), best, depth);
        lemma_improve_all(
            start,
            winners,
            k + 1,
            improve_along(start, line, crate::optimize::scan_from(line), best, depth),
            depth,
        );
    }
}

} // verus!
