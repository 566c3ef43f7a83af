use vstd::prelude::*;
use vstd::hash_map::StringHashMap;
use crate::board::{
    board_to_string, cells_valid, count_empty, empties_upto, empty_cells, is_side, key_of, key_upto,
    lemma_empties_upto, opponent, outcome, symbol, EndType, Turn,
};
use crate::tree::{
    child_score, get_boards, lemma_count_empty_drops, moves_of, tree_ok, Boards, Move,
};

verus! {

/// The side to move on a board of a game that `X` opened: `X` while an odd
/// number of cells is empty.
pub open spec fn turn_at(b: Seq<Turn>) -> Turn {
    if count_empty(b) % 2 == 1 {
        Turn::X
    } else {
        Turn::O
    }
}

/// The board with every cell empty.
pub open spec fn empty_board() -> Seq<Turn> {
    Seq::new(9, |i: int| Turn::Empty)
}

/// `p` is a sequence of legal alternating moves from board `b` with `turn` to
/// move: each plays an empty cell of a board that is not yet decided.
pub open spec fn legal_path(turn: Turn, b: Seq<Turn>, p: Seq<usize>) -> bool
    decreases p.len(),
{
    p.len() == 0 || (b.len() == 9 && outcome(b) == EndType::Ongoing && (p[0] as int) < 9
        && b[p[0] as int] == Turn::Empty && legal_path(
        opponent(turn),
        b.update(p[0] as int, turn),
        p.drop_first(),
    ))
}

/// The board after the moves `p` are played in turn from `b`, `turn` first.
pub open spec fn play(turn: Turn, b: Seq<Turn>, p: Seq<usize>) -> Seq<Turn>
    decreases p.len(),
{
    if p.len() == 0 {
        b
    } else {
        play(opponent(turn), b.update(p[0] as int, turn), p.drop_first())
    }
}

/// Board `c` can be reached from the empty board by legal play, `X` first.
pub open spec fn reachable(c: Seq<Turn>) -> bool {
    exists|p: Seq<usize>| legal_path(Turn::X, empty_board(), p) && play(Turn::X, empty_board(), p) == c
}

/// Move `x` is ranked before move `y`: its recorded value is higher, or equal
/// with a lower index.
pub open spec fn ranks_before(turn: Turn, b: Seq<Turn>, x: usize, y: usize) -> bool {
    let sx = child_score(turn, b, x as int);
    let sy = child_score(turn, b, y as int);
    sx > sy || (sx == sy && x < y)
}

/// `r` lists the moves of board `b` with `turn` to move, best first: by
/// descending recorded value, ties by ascending index.
pub open spec fn is_ranking(r: Seq<usize>, turn: Turn, b: Seq<Turn>) -> bool {
    &&& r.len() == moves_of(b).len()
    &&& forall|x: usize| r.contains(x) <==> moves_of(b).contains(x)
    &&& forall|p: int, q: int|
        0 <= p < q < r.len() ==> ranks_before(turn, b, #[trigger] r[p], #[trigger] r[q])
}

/// Each entry of the table is the ranking of the board whose key it is under.
pub open spec fn entries_ranked(m: Map<Seq<char>, Vec<usize>>) -> bool {
    forall|k: Seq<char>|
        #[trigger] m.contains_key(k) ==> exists|c: Seq<Turn>|
            cells_valid(c) && key_of(c) == k && is_ranking(m[k]@, turn_at(c), c)
}

/// Some board reached from `b` with `turn` to move has the key `k`.
pub open spec fn covers(turn: Turn, b: Seq<Turn>, k: Seq<char>) -> bool {
    exists|p: Seq<usize>| legal_path(turn, b, p) && key_of(play(turn, b, p)) == k
}

/// The move table of the game: one entry per board reachable from the empty
/// board, and nothing else, each entry ranking that board's moves.
pub open spec fn is_move_table(m: Map<Seq<char>, Vec<usize>>) -> bool {
    &&& forall|k: Seq<char>| m.contains_key(k) <==> covers(Turn::X, empty_board(), k)
    &&& entries_ranked(m)
}

/// The character that stands for a cell of a valid board.
pub open spec fn symbol_char(t: Turn) -> char {
    match t {
        Turn::X => 'X',
        Turn::O => 'O',
        _ => ' ',
    }
}

proof fn lemma_key_upto(b: Seq<Turn>, k: int)
    requires
        cells_valid(b),
        0 <= k <= 9,
    ensures
        key_upto(b, k).len() == k,
        forall|i: int| 0 <= i < k ==> #[trigger] key_upto(b, k)[i] == symbol_char(b[i]),
    decreases k,
{
    reveal_strlit("X");
    reveal_strlit("O");
    reveal_strlit(" ");
    if k > 0 {
        lemma_key_upto(b, k - 1);
        assert(symbol(b[k - 1]).len() == 1);
        assert(symbol(b[k - 1])[0] == symbol_char(b[k - 1]));
    }
}

/// Two valid boards with the same key are the same board.
pub proof fn lemma_key_injective(c: Seq<Turn>, d: Seq<Turn>)
    requires
        cells_valid(c),
        cells_valid(d),
        key_of(c) == key_of(d),
    ensures
        c == d,
{
    lemma_key_upto(c, 9);
    lemma_key_upto(d, 9);
    assert forall|i: int| 0 <= i < 9 implies c[i] == d[i] by {
        assert(key_upto(c, 9)[i] == symbol_char(c[i]));
        assert(key_upto(d, 9)[i] == symbol_char(d[i]));
        assert(c[i] != Turn::Multi && d[i] != Turn::Multi);
        assert(symbol_char(c[i]) == symbol_char(d[i]));
    }
    assert(c =~= d);
}

/// Legal play from a valid board leads to a valid board.
pub proof fn lemma_play_valid(turn: Turn, b: Seq<Turn>, p: Seq<usize>)
    requires
        legal_path(turn, b, p),
        cells_valid(b),
        is_side(turn),
    ensures
        cells_valid(play(turn, b, p)),
    decreases p.len(),
{
    if p.len() > 0 {
        lemma_play_valid(opponent(turn), b.update(p[0] as int, turn), p.drop_first());
    }
}

/// The keys covered from a board: its own, and those covered from each board
/// one legal move further.
pub proof fn lemma_covers_step(turn: Turn, b: Seq<Turn>, k: Seq<char>)
    requires
        b.len() == 9,
    ensures
        covers(turn, b, k) <==> (k == key_of(b) || (outcome(b) == EndType::Ongoing && exists|i: int|
            0 <= i < 9 && b[i] == Turn::Empty && #[trigger] covers(
                opponent(turn),
                b.update(i, turn),
                k,
            ))),
{
    if covers(turn, b, k) {
        let p = choose|p: Seq<usize>| legal_path(turn, b, p) && key_of(play(turn, b, p)) == k;
        if p.len() > 0 {
            let i = p[0] as int;
            assert(legal_path(opponent(turn), b.update(i, turn), p.drop_first()));
            assert(covers(opponent(turn), b.update(i, turn), k));
        }
    }
    if k == key_of(b) {
        let p = Seq::<usize>::empty();
        assert(legal_path(turn, b, p) && key_of(play(turn, b, p)) == k);
    } else if outcome(b) == EndType::Ongoing && exists|i: int|
        0 <= i < 9 && b[i] == Turn::Empty && #[trigger] covers(
            opponent(turn),
            b.update(i, turn),
            k,
        ) {
        let i = choose|i: int|
            0 <= i < 9 && b[i] == Turn::Empty && #[trigger] covers(
                opponent(turn),
                b.update(i, turn),
                k,
            );
        let c = b.update(i, turn);
        let q = choose|q: Seq<usize>|
            legal_path(opponent(turn), c, q) && key_of(play(opponent(turn), c, q)) == k;
        let p = seq![i as usize].add(q);
        assert(p.drop_first() =~= q);
        assert(legal_path(turn, b, p) && key_of(play(turn, b, p)) == k);
    }
}

/// Strict order facts of `ranks_before`.
proof fn lemma_ranks_before_asymmetric(turn: Turn, b: Seq<Turn>, x: usize, y: usize)
    ensures
        !(ranks_before(turn, b, x, y) && ranks_before(turn, b, y, x)),
{
}

proof fn lemma_rankings_agree(r1: Seq<usize>, r2: Seq<usize>, turn: Turn, b: Seq<Turn>, p: int)
    requires
        is_ranking(r1, turn, b),
        is_ranking(r2, turn, b),
        0 <= p < r1.len(),
    ensures
        forall|q: int| 0 <= q <= p ==> r1[q] == r2[q],
    decreases p,
{
    if p > 0 {
        lemma_rankings_agree(r1, r2, turn, b, p - 1);
    }
    let x = r1[p];
    let y = r2[p];
    if x != y {
        assert(r1.contains(x));
        assert(moves_of(b).contains(x));
        assert(r2.contains(x));
        let q = choose|q: int| 0 <= q < r2.len() && r2[q] == x;
        assert(r2.contains(y));
        assert(moves_of(b).contains(y));
        assert(r1.contains(y));
        let q2 = choose|q: int| 0 <= q < r1.len() && r1[q] == y;
        if q < p {
            assert(r1[q] == x);
            assert(ranks_before(turn, b, r1[q], r1[p]));
            lemma_ranks_before_asymmetric(turn, b, x, x);
        }
        if q2 < p {
            assert(r2[q2] == y);
            assert(ranks_before(turn, b, r2[q2], r2[p]));
            lemma_ranks_before_asymmetric(turn, b, y, y);
        }
        assert(ranks_before(turn, b, y, x));
        assert(ranks_before(turn, b, x, y));
        lemma_ranks_before_asymmetric(turn, b, x, y);
    }
}

/// A board has one ranking at most.
pub proof fn lemma_ranking_unique(r1: Seq<usize>, r2: Seq<usize>, turn: Turn, b: Seq<Turn>)
    requires
        is_ranking(r1, turn, b),
        is_ranking(r2, turn, b),
    ensures
        r1 == r2,
{
    if r1.len() > 0 {
        lemma_rankings_agree(r1, r2, turn, b, r1.len() - 1);
    }
    assert(r1 =~= r2);
}

/// Ranks the moves of a node: by descending recorded value, ties by ascending
/// index, as a stable sort of the moves in their ascending order.
fn rank_moves(moves: &Vec<Move>, Ghost(turn): Ghost<Turn>, Ghost(b): Ghost<Seq<Turn>>) -> (r: Vec<
    usize,
>)
    requires
        b.len() == 9,
        moves@.len() == moves_of(b).len(),
        forall|j: int|
            #![trigger moves@[j]]
            0 <= j < moves@.len() ==> moves@[j].index == moves_of(b)[j] && moves@[j].board.score
                == child_score(turn, b, moves@[j].index as int),
    ensures
        is_ranking(r@, turn, b),
{
    let ghost ms = moves_of(b);
    proof {
        lemma_empties_upto(b, 9);
    }
    assert(forall|p: int, q: int| 0 <= p < q < ms.len() ==> #[trigger] ms[p] < #[trigger] ms[q]);
    let mut ranked: Vec<usize> = Vec::new();
    let mut scores: Vec<i8> = Vec::new();
    let mut j: usize = 0;
    while j < moves.len()
        invariant
            ms == moves_of(b),
            moves@.len() == ms.len(),
            forall|j: int|
                #![trigger moves@[j]]
                0 <= j < moves@.len() ==> moves@[j].index == ms[j] && moves@[j].board.score
                    == child_score(turn, b, moves@[j].index as int),
            forall|p: int, q: int| 0 <= p < q < ms.len() ==> #[trigger] ms[p] < #[trigger] ms[q],
            0 <= j <= moves@.len(),
            ranked@.len() == j,
            scores@.len() == j,
            forall|p: int|
                #![trigger scores@[p]]
                0 <= p < j ==> scores@[p] == child_score(turn, b, ranked@[p] as int),
            forall|x: usize| ranked@.contains(x) <==> ms.take(j as int).contains(x),
            forall|p: int, q: int|
                0 <= p < q < j ==> ranks_before(turn, b, #[trigger] ranked@[p], #[trigger] ranked@[q]),
        decreases moves@.len() - j,
    {
        let sc = moves[j].board.score;
        let ix = moves[j].index;
        assert(ix == ms[j as int]);
        let mut p: usize = 0;
        while p < scores.len() && scores[p] >= sc
            invariant
                0 <= p <= scores@.len(),
                forall|q: int| 0 <= q < p ==> #[trigger] scores@[q] >= sc,
            decreases scores@.len() - p,
        {
            p = p + 1;
        }
        let ghost old_ranked = ranked@;
        let ghost old_scores = scores@;
        proof {
            assert forall|q: int| 0 <= q < old_ranked.len() implies #[trigger] old_ranked[q] < ix by {
                assert(old_ranked.contains(old_ranked[q]));
                assert(ms.take(j as int).contains(old_ranked[q]));
                let w = choose|w: int| 0 <= w < j && ms.take(j as int)[w] == old_ranked[q];
                assert(ms[w] < ms[j as int]);
            }
            assert forall|q: int| p <= q < old_scores.len() implies #[trigger] old_scores[q] < sc by {
                if q > p {
                    assert(ranks_before(turn, b, old_ranked[p as int], old_ranked[q]));
                }
            }
        }
        ranked.insert(p, ix);
        scores.insert(p, sc);
        proof {
            assert(ms.take(j + 1) =~= ms.take(j as int).push(ix));
            assert forall|x: usize| ranked@.contains(x) <==> ms.take(j + 1).contains(x) by {
                if ranked@.contains(x) {
                    let w = choose|w: int| 0 <= w < ranked@.len() && ranked@[w] == x;
                    if w < p {
                        assert(old_ranked[w] == x);
                        assert(old_ranked.contains(x));
                    } else if w > p {
                        assert(old_ranked[w - 1] == x);
                        assert(old_ranked.contains(x));
                    }
                    if x == ix {
                        assert(ms.take(j + 1)[j as int] == x);
                    } else {
                        assert(ms.take(j as int).contains(x));
                        let v = choose|v: int| 0 <= v < j && ms.take(j as int)[v] == x;
                        assert(ms.take(j + 1)[v] == x);
                    }
                    assert(ms.take(j + 1).contains(x));
                }
                if ms.take(j + 1).contains(x) {
                    if x == ix {
                        assert(ranked@[p as int] == x);
                    } else {
                        assert(ms.take(j as int).push(ix).contains(x));
                        let w = choose|w: int| 0 <= w < j + 1 && ms.take(j as int).push(ix)[w] == x;
                        assert(ms.take(j as int)[w] == x);
                        assert(ms.take(j as int).contains(x));
                        assert(old_ranked.contains(x));
                        let v = choose|v: int| 0 <= v < old_ranked.len() && old_ranked[v] == x;
                        if v < p {
                            assert(ranked@[v] == x);
                        } else {
                            assert(ranked@[v + 1] == x);
                        }
                    }
                }
            }
            assert forall|q1: int, q2: int|
                0 <= q1 < q2 < j + 1 implies ranks_before(
                turn,
                b,
                #[trigger] ranked@[q1],
                #[trigger] ranked@[q2],
            ) by {
                if q2 < p {
                    assert(ranked@[q1] == old_ranked[q1] && ranked@[q2] == old_ranked[q2]);
                } else if q2 == p {
                    assert(ranked@[q1] == old_ranked[q1]);
                    assert(old_scores[q1] >= sc);
                    assert(old_ranked[q1] < ix);
                } else if q1 < p {
                    assert(ranked@[q1] == old_ranked[q1] && ranked@[q2] == old_ranked[q2 - 1]);
                } else if q1 == p {
                    assert(ranked@[q2] == old_ranked[q2 - 1]);
                    assert(old_scores[q2 - 1] < sc);
                } else {
                    assert(ranked@[q1] == old_ranked[q1 - 1] && ranked@[q2] == old_ranked[q2 - 1]);
                }
            }
            assert forall|q: int| 0 <= q < j + 1 implies #[trigger] scores@[q] == child_score(
                turn,
                b,
                ranked@[q] as int,
            ) by {
                if q < p {
                    assert(scores@[q] == old_scores[q]);
                } else if q > p {
                    assert(scores@[q] == old_scores[q - 1]);
                }
            }
        }
        j = j + 1;
    }
    assert(ms.take(j as int) =~= ms);
    ranked
}

/// Adds to the table an entry for every board of the tree `boards` whose key it
/// does not hold yet, walking the whole tree depth first.
fn add_boards(hash: &mut StringHashMap<Vec<usize>>, boards: Boards, Ghost(turn): Ghost<Turn>)
    requires
        tree_ok(boards, turn),
        is_side(turn),
        cells_valid(boards.board@),
        turn == turn_at(boards.board@),
        entries_ranked(old(hash)@),
    ensures
        entries_ranked(final(hash)@),
        forall|k: Seq<char>|
            #[trigger] final(hash)@.contains_key(k) <==> (old(hash)@.contains_key(k) || covers(
                turn,
                boards.board@,
                k,
            )),
    decreases count_empty(boards.board@),
{
    let ghost b = boards.board@;
    let ghost h_old = hash@;
    let key = board_to_string(boards.board);
    if !hash.contains_key(key.as_str()) {
        let ranking = rank_moves(&boards.moves, Ghost(turn), Ghost(b));
        let ghost h1 = hash@;
        hash.insert(key, ranking);
        proof {
            assert forall|k: Seq<char>| #[trigger] hash@.contains_key(k) implies exists|c: Seq<Turn>|
                cells_valid(c) && key_of(c) == k && is_ranking(hash@[k]@, turn_at(c), c) by {
                if k == key_of(b) {
                    assert(cells_valid(b) && key_of(b) == k && is_ranking(hash@[k]@, turn_at(b), b));
                } else {
                    assert(h1.contains_key(k));
                    let c = choose|c: Seq<Turn>|
                        cells_valid(c) && key_of(c) == k && is_ranking(h1[k]@, turn_at(c), c);
                    assert(hash@[k] == h1[k]);
                }
            }
        }
    }
    assert(hash@.contains_key(key_of(b)));
    let ghost h_mid = hash@;
    let ghost orig = boards.moves@;
    proof {
        lemma_empties_upto(b, 9);
    }
    let mut rest = boards.moves;
    let mut j: usize = 0;
    while rest.len() > 0
        invariant
            is_side(turn),
            cells_valid(b),
            turn == turn_at(b),
            orig.len() == moves_of(b).len(),
            orig.len() <= 9,
            boards.board@ == b,
            forall|q: int|
                #![trigger orig[q]]
                0 <= q < orig.len() ==> {
                    &&& orig[q].index == moves_of(b)[q]
                    &&& orig[q].board.board@ == b.update(orig[q].index as int, turn)
                    &&& tree_ok(orig[q].board, opponent(turn))
                },
            forall|p: int|
                #![trigger empties_upto(b, 9)[p]]
                0 <= p < empties_upto(b, 9).len() ==> (empties_upto(b, 9)[p] as int) < 9
                    && b[empties_upto(b, 9)[p] as int] == Turn::Empty,
            0 <= j <= orig.len(),
            rest@ == orig.skip(j as int),
            entries_ranked(hash@),
            forall|k: Seq<char>|
                #[trigger] hash@.contains_key(k) <==> (h_old.contains_key(k) || k == key_of(b) || exists|q: int|
                    0 <= q < j && covers(opponent(turn), #[trigger] orig[q].board.board@, k)),
        decreases rest@.len(),
    {
        assert(j < orig.len());
        let m = rest.remove(0);
        assert(m == orig[j as int]);
        let ghost h_before = hash@;
        let ghost i = m.index as int;
        proof {
            assert(outcome(b) == EndType::Ongoing);
            assert(moves_of(b) == empties_upto(b, 9));
            assert(orig[j as int].index == empties_upto(b, 9)[j as int]);
            assert(0 <= i < 9 && b[i] == Turn::Empty);
            lemma_count_empty_drops(b, i, turn);
            assert(m.board.board@ == b.update(i, turn));
            assert(count_empty(m.board.board@) < count_empty(b));
        }
        add_boards(hash, m.board, Ghost(opponent(turn)));
        proof {
            assert forall|k: Seq<char>|
                #[trigger] hash@.contains_key(k) <==> (h_old.contains_key(k) || k == key_of(b)
                    || exists|q: int|
                    0 <= q < j + 1 && covers(opponent(turn), #[trigger] orig[q].board.board@, k)) by {
                if covers(opponent(turn), orig[j as int].board.board@, k) {
                    assert(0 <= j < j + 1);
                }
                if exists|q: int|
                    0 <= q < j + 1 && covers(opponent(turn), #[trigger] orig[q].board.board@, k) {
                    let q = choose|q: int|
                        0 <= q < j + 1 && covers(opponent(turn), #[trigger] orig[q].board.board@, k);
                    if q < j {
                        assert(h_before.contains_key(k));
                    }
                }
            }
        }
        j = j + 1;
    }
    proof {
        assert forall|k: Seq<char>| #[trigger]
            hash@.contains_key(k) <==> (h_old.contains_key(k) || covers(turn, b, k)) by {
            lemma_covers_step(turn, b, k);
            if covers(turn, b, k) && k != key_of(b) {
                let i = choose|i: int|
                    0 <= i < 9 && b[i] == Turn::Empty && #[trigger] covers(
                        opponent(turn),
                        b.update(i, turn),
                        k,
                    );
                assert(moves_of(b).contains(i as usize));
                let q = choose|q: int| 0 <= q < moves_of(b).len() && moves_of(b)[q] == i as usize;
                assert(orig[q].board.board@ == b.update(i, turn));
            }
            if exists|q: int|
                0 <= q < j && covers(opponent(turn), #[trigger] orig[q].board.board@, k) {
                let q = choose|q: int|
                    0 <= q < j && covers(opponent(turn), #[trigger] orig[q].board.board@, k);
                let i = orig[q].index as int;
                assert(0 <= i < 9 && b[i] == Turn::Empty);
                assert(covers(opponent(turn), b.update(i, turn), k));
            }
        }
    }
}

/// Builds the move table: the full game tree from the empty board with `X` to
/// move, compiled into one ranking per reachable board.
pub fn calc_ai() -> (r: StringHashMap<Vec<usize>>)
    ensures
        is_move_table(r@),
{
    let start = [Turn::Empty; 9];
    assert(start@ =~= empty_board());
    let boards = get_boards(Turn::X, start);
    let mut hash: StringHashMap<Vec<usize>> = StringHashMap::new();
    assert(count_empty(empty_board()) == 9);
    add_boards(&mut hash, boards, Ghost(Turn::X));
    hash
}

/// Every board reachable from the empty board has an entry in a move table;
/// when the board is not decided, the entry lists each of its empty cells once
/// and nothing else.
pub proof fn lemma_table_entry(m: Map<Seq<char>, Vec<usize>>, c: Seq<Turn>)
    requires
        is_move_table(m),
        reachable(c),
    ensures
        m.contains_key(key_of(c)),
        is_ranking(m[key_of(c)]@, turn_at(c), c),
        outcome(c) == EndType::Ongoing ==> {
            &&& m[key_of(c)]@.len() > 0
            &&& m[key_of(c)]@.no_duplicates()
            &&& forall|i: int|
                0 <= i < 9 ==> (m[key_of(c)]@.contains(i as usize) <==> c[i] == Turn::Empty)
            &&& forall|p: int|
                0 <= p < m[key_of(c)]@.len() ==> #[trigger] m[key_of(c)]@[p] < 9
        },
{
    let k = key_of(c);
    let p = choose|p: Seq<usize>|
        legal_path(Turn::X, empty_board(), p) && play(Turn::X, empty_board(), p) == c;
    assert(covers(Turn::X, empty_board(), k));
    assert(m.contains_key(k));
    lemma_play_valid(Turn::X, empty_board(), p);
    let d = choose|d: Seq<Turn>| cells_valid(d) && key_of(d) == k && is_ranking(m[k]@, turn_at(d), d);
    lemma_key_injective(c, d);
    let r = m[k]@;
    if outcome(c) == EndType::Ongoing {
        lemma_empties_upto(c, 9);
        assert(moves_of(c) == empty_cells(c));
        let i = choose|i: int| 0 <= i < 9 && c[i] == Turn::Empty;
        assert(empty_cells(c).contains(i as usize));
        assert(r.contains(i as usize));
        assert forall|a: int, b: int| 0 <= a < r.len() && 0 <= b < r.len() && a != b implies r[a]
            != r[b] by {
            if a < b {
                assert(ranks_before(turn_at(c), c, r[a], r[b]));
            } else {
                assert(ranks_before(turn_at(c), c, r[b], r[a]));
            }
        }
        assert forall|i: int| 0 <= i < 9 implies (r.contains(i as usize) <==> c[i] == Turn::Empty) by {
            if r.contains(i as usize) {
                assert(empty_cells(c).contains(i as usize));
                let q = choose|q: int| 0 <= q < empty_cells(c).len() && empty_cells(c)[q] == i as usize;
                assert(empties_upto(c, 9)[q] == i as usize);
            }
        }
        assert forall|p: int| 0 <= p < r.len() implies #[trigger] r[p] < 9 by {
            assert(r.contains(r[p]));
            assert(empty_cells(c).contains(r[p]));
            let q = choose|q: int| 0 <= q < empty_cells(c).len() && empty_cells(c)[q] == r[p];
            assert(empties_upto(c, 9)[q] == r[p]);
        }
    }
}

/// Two move tables hold the same keys, each with the same ranking.
pub proof fn lemma_move_table_unique(m1: Map<Seq<char>, Vec<usize>>, m2: Map<Seq<char>, Vec<usize>>)
    requires
        is_move_table(m1),
        is_move_table(m2),
    ensures
        m1.dom() == m2.dom(),
        forall|k: Seq<char>| #[trigger] m1.contains_key(k) ==> m1[k]@ == m2[k]@,
{
    assert forall|k: Seq<char>| #[trigger] m1.contains_key(k) implies m1[k]@ == m2[k]@ by {
        assert(m2.contains_key(k));
        let c1 = choose|c: Seq<Turn>| cells_valid(c) && key_of(c) == k && is_ranking(m1[k]@, turn_at(c), c);
        let c2 = choose|c: Seq<Turn>| cells_valid(c) && key_of(c) == k && is_ranking(m2[k]@, turn_at(c), c);
        lemma_key_injective(c1, c2);
        lemma_ranking_unique(m1[k]@, m2[k]@, turn_at(c1), c1);
    }
    assert(m1.dom() =~= m2.dom());
}

/// The move the program makes when it plays `side` on `board`: the first of the
/// board's ranking for `X`, the last for `O`. On a table built by `calc_ai` and
/// a board reachable from the empty board that is not decided, that cell is
/// empty.
pub fn select_move(table: &StringHashMap<Vec<usize>>, board: [Turn; 9], side: Turn) -> (r: usize)
    requires
        is_side(side),
        table@.contains_key(key_of(board@)),
        table@[key_of(board@)]@.len() > 0,
    ensures
        side == Turn::X ==> r == table@[key_of(board@)]@[0],
        side == Turn::O ==> r == table@[key_of(board@)]@.last(),
        is_move_table(table@) && reachable(board@) && outcome(board@) == EndType::Ongoing ==> r
            < 9 && board@[r as int] == Turn::Empty,
{
    let key = board_to_string(board);
    let entry = table.get(key.as_str());
    match entry {
        Some(e) => {
            let r = if side == Turn::X {
                e[0]
            } else {
                e[e.len() - 1]
            };
            proof {
                if is_move_table(table@) && reachable(board@) && outcome(board@) == EndType::Ongoing {
                    lemma_table_entry(table@, board@);
                    assert(table@[key_of(board@)]@.contains(r));
                }
            }
            r
        },
        None => {
            proof {
                assert(false);
            }
            0
        },
    }
}

} // verus!
