use vstd::prelude::*;
use crate::board::{
    count_empty, empty_at, empty_cells, get_moves, is_side, is_won, lemma_empties_upto, new_turn, opponent,
    outcome, weight, EndType, Turn,
};

verus! {

/// The value a running best starts from: the worst outcome for the side to move.
pub open spec fn initial_best(turn: Turn) -> int {
    if turn == Turn::X {
        -1
    } else {
        1
    }
}

/// Folds a child's value into the running best: the maximum for `X`, the
/// minimum for the other side.
pub open spec fn combine(turn: Turn, best: int, v: int) -> int {
    if turn == Turn::X {
        if v > best {
            v
        } else {
            best
        }
    } else {
        if v < best {
            v
        } else {
            best
        }
    }
}

/// The minimax value of a board with `turn` to move: a draw is worth 0, a won
/// board the weight of the side that just moved, and an ongoing board the best
/// value of its children for the side to move.
pub open spec fn score_of(turn: Turn, b: Seq<Turn>) -> int
    decreases count_empty(b), empty_cells(b).len() + 1,
{
    match outcome(b) {
        EndType::Draw => 0,
        EndType::Win => weight(opponent(turn)),
        EndType::Ongoing => best_over(turn, b, empty_cells(b)),
    }
}

/// The running best after the moves `ms`, taken in order, have been tried.
pub open spec fn best_over(turn: Turn, b: Seq<Turn>, ms: Seq<usize>) -> int
    decreases count_empty(b), ms.len(),
{
    if ms.len() == 0 {
        initial_best(turn)
    } else {
        let prev = best_over(turn, b, ms.drop_last());
        let m = ms.last() as int;
        if b.len() == 9 && 0 <= m < 9 && b[m] == Turn::Empty && turn != Turn::Empty {
            combine(turn, prev, score_of(opponent(turn), b.update(m, turn)))
        } else {
            prev
        }
    }
}

/// The value recorded for the move at `i`: the child's value, doubled when the
/// child board is decided.
pub open spec fn child_score(turn: Turn, b: Seq<Turn>, i: int) -> int {
    let c = b.update(i, turn);
    let v = score_of(opponent(turn), c);
    if outcome(c) != EndType::Ongoing {
        2 * v
    } else {
        v
    }
}

/// The moves offered from a board: none once it is decided, else its empty cells.
pub open spec fn moves_of(b: Seq<Turn>) -> Seq<usize> {
    if outcome(b) == EndType::Ongoing {
        empty_cells(b)
    } else {
        Seq::empty()
    }
}

/// A move of a game tree: the cell played and the node it leads to.
pub struct Move {
    pub index: usize,
    pub board: Boards,
}

/// A node of the game tree.
pub struct Boards {
    pub score: i8,
    pub end: bool,
    pub board: [Turn; 9],
    pub moves: Vec<Move>,
}

/// `n` is the full game tree of its board with `turn` to move: it is terminal
/// exactly when the board is decided, it has one child per empty cell in
/// ascending order, each child's board has that cell set to `turn`, and each
/// child carries its recorded value.
pub open spec fn tree_ok(n: Boards, turn: Turn) -> bool
    decreases n,
{
    &&& n.end == (outcome(n.board@) != EndType::Ongoing)
    &&& n.moves@.len() == moves_of(n.board@).len()
    &&& forall|j: int|
        #![trigger n.moves@[j]]
        0 <= j < n.moves@.len() ==> {
            &&& n.moves@[j].index == moves_of(n.board@)[j]
            &&& n.moves@[j].board.board@ == n.board@.update(n.moves@[j].index as int, turn)
            &&& n.moves@[j].board.score == child_score(turn, n.board@, n.moves@[j].index as int)
            &&& tree_ok(n.moves@[j].board, opponent(turn))
        }
}

/// Playing an empty cell leaves one empty cell fewer.
pub proof fn lemma_count_empty_drops(b: Seq<Turn>, i: int, t: Turn)
    requires
        b.len() == 9,
        0 <= i < 9,
        b[i] == Turn::Empty,
        t != Turn::Empty,
    ensures
        count_empty(b.update(i, t)) == count_empty(b) - 1,
{
    let c = b.update(i, t);
    assert(empty_at(c, i) == 0 && empty_at(b, i) == 1);
    assert forall|j: int| 0 <= j < 9 && j != i implies empty_at(c, j) == empty_at(b, j) by {
        assert(c[j] == b[j]);
    }
    assert(empty_at(c, 0) <= empty_at(b, 0));
    assert(empty_at(c, 1) <= empty_at(b, 1));
    assert(empty_at(c, 2) <= empty_at(b, 2));
    assert(empty_at(c, 3) <= empty_at(b, 3));
    assert(empty_at(c, 4) <= empty_at(b, 4));
    assert(empty_at(c, 5) <= empty_at(b, 5));
    assert(empty_at(c, 6) <= empty_at(b, 6));
    assert(empty_at(c, 7) <= empty_at(b, 7));
    assert(empty_at(c, 8) <= empty_at(b, 8));
}

proof fn lemma_best_over_step(turn: Turn, b: Seq<Turn>, ms: Seq<usize>, k: int)
    requires
        b.len() == 9,
        is_side(turn),
        0 <= k < ms.len(),
        (ms[k] as int) < 9,
        b[ms[k] as int] == Turn::Empty,
    ensures
        best_over(turn, b, ms.take(k + 1)) == combine(
            turn,
            best_over(turn, b, ms.take(k)),
            score_of(opponent(turn), b.update(ms[k] as int, turn)),
        ),
{
    let t = ms.take(k + 1);
    assert(t.drop_last() == ms.take(k));
    assert(t.last() == ms[k]);
}

/// Builds the full game tree of `board` with `turn` to move.
pub fn get_boards(turn: Turn, board: [Turn; 9]) -> (r: Boards)
    requires
        is_side(turn),
    ensures
        r.board == board,
        r.score == score_of(turn, board@),
        -1 <= r.score <= 1,
        tree_ok(r, turn),
    decreases count_empty(board@),
{
    let w = is_won(board);
    if w != EndType::Ongoing {
        if w == EndType::Draw {
            return Boards { score: 0, end: true, moves: Vec::new(), board: board };
        } else {
            return Boards {
                score: new_turn(turn).weight(),
                end: true,
                moves: Vec::new(),
                board: board,
            };
        }
    }
    let moves = get_moves(board);
    proof {
        lemma_empties_upto(board@, 9);
    }
    let mut vec: Vec<Move> = Vec::new();
    let mut s: i8 = if turn == Turn::X {
        -1
    } else {
        1
    };
    let mut k: usize = 0;
    while k < moves.len()
        invariant
            is_side(turn),
            outcome(board@) == EndType::Ongoing,
            moves@ == empty_cells(board@),
            moves@.len() <= 9,
            forall|p: int|
                #![trigger moves@[p]]
                0 <= p < moves@.len() ==> (moves@[p] as int) < 9 && board@[moves@[p] as int]
                    == Turn::Empty,
            0 <= k <= moves@.len(),
            s == best_over(turn, board@, moves@.take(k as int)),
            -1 <= s <= 1,
            vec@.len() == k,
            forall|j: int|
                #![trigger vec@[j]]
                0 <= j < k ==> {
                    &&& vec@[j].index == moves@[j]
                    &&& vec@[j].board.board@ == board@.update(vec@[j].index as int, turn)
                    &&& vec@[j].board.score == child_score(turn, board@, vec@[j].index as int)
                    &&& tree_ok(vec@[j].board, opponent(turn))
                },
        decreases moves@.len() - k,
    {
        let i = moves[k];
        assert(moves@[k as int] == i);
        let mut b = board;
        b[i] = turn;
        assert(b@ == board@.update(i as int, turn));
        proof {
            lemma_count_empty_drops(board@, i as int, turn);
        }
        let mut boards = get_boards(new_turn(turn), b);
        let ghost v = boards.score as int;
        let ghost s0 = s as int;
        proof {
            lemma_best_over_step(turn, board@, moves@, k as int);
        }
        if turn == Turn::X {
            if boards.score > s {
                s = boards.score;
            }
        } else {
            if boards.score < s {
                s = boards.score;
            }
        }
        assert(s == combine(turn, s0, v));
        if boards.end {
            boards.score = boards.score * 2;
        }
        assert(boards.score == child_score(turn, board@, i as int));
        vec.push(Move { board: boards, index: i });
        k = k + 1;
    }
    assert(moves@.take(k as int) == moves@);
    Boards { score: s, end: false, moves: vec, board: board }
}

} // verus!
