use vstd::prelude::*;
use vstd::hash_map::StringHashMap;
use rand::seq::IndexedRandom;
use crate::board::{
    cells_valid, count_empty, has_line, is_side, is_won, key_of, new_turn, opponent, outcome, symbol,
    EndType, Turn,
};
use crate::table::{
    calc_ai, empty_board, is_move_table, lemma_table_entry, legal_path, play, reachable,
    select_move, turn_at,
};
use crate::tree::lemma_count_empty_drops;

verus! {

/// What the host hands to a game: a click on a cell, nothing, a reset, or the
/// choice of the side the person plays (`Multi` for two people).
#[derive(Clone, Copy, Debug)]
pub enum Message {
    Click(usize),
    Nothing,
    Reset,
    Player(Turn),
}

/// What the host is to show: nothing, or a message that ends the game.
#[derive(Debug)]
pub enum Command {
    Idle,
    Alert(String),
}

/// The text shown when the side `t` wins.
pub open spec fn win_text(t: Turn) -> Seq<char> {
    symbol(t) + " Wins!"@
}

/// A game in progress, with the move table the program plays from.
pub struct Game {
    pub board: [Turn; 9],
    pub turn: Turn,
    pub command: Command,
    pub table: StringHashMap<Vec<usize>>,
    pub player: Turn,
}

/// The side to move after `n` moves from `turn`.
pub open spec fn side_after(turn: Turn, n: nat) -> Turn {
    if n % 2 == 0 {
        turn
    } else {
        opponent(turn)
    }
}

/// Playing along a legal path leaves one empty cell fewer per move.
pub proof fn lemma_play_count(turn: Turn, b: Seq<Turn>, p: Seq<usize>)
    requires
        legal_path(turn, b, p),
        b.len() == 9,
        is_side(turn),
    ensures
        play(turn, b, p).len() == 9,
        count_empty(play(turn, b, p)) == count_empty(b) - p.len(),
    decreases p.len(),
{
    if p.len() > 0 {
        lemma_count_empty_drops(b, p[0] as int, turn);
        lemma_play_count(opponent(turn), b.update(p[0] as int, turn), p.drop_first());
    }
}

/// A legal path extended by a legal move is a legal path to the board with
/// that move played.
pub proof fn lemma_play_push(turn: Turn, b: Seq<Turn>, p: Seq<usize>, v: usize)
    requires
        legal_path(turn, b, p),
        b.len() == 9,
        is_side(turn),
        outcome(play(turn, b, p)) == EndType::Ongoing,
        v < 9,
        play(turn, b, p)[v as int] == Turn::Empty,
    ensures
        legal_path(turn, b, p.push(v)),
        play(turn, b, p.push(v)) == play(turn, b, p).update(v as int, side_after(turn, p.len())),
    decreases p.len(),
{
    let q = p.push(v);
    if p.len() == 0 {
        assert(play(turn, b, p) == b);
        assert(q.drop_first() =~= Seq::<usize>::empty());
        assert(q[0] == v);
        assert(legal_path(opponent(turn), b.update(v as int, turn), q.drop_first()));
        assert(play(turn, b, q) == play(opponent(turn), b.update(v as int, turn), q.drop_first()));
    } else {
        let b1 = b.update(p[0] as int, turn);
        let p1 = p.drop_first();
        assert(q.drop_first() =~= p1.push(v));
        assert(q[0] == p[0]);
        assert(legal_path(opponent(turn), b1, p1));
        assert(play(turn, b, p) == play(opponent(turn), b1, p1));
        lemma_count_empty_drops(b, p[0] as int, turn);
        lemma_play_push(opponent(turn), b1, p1, v);
        assert(side_after(opponent(turn), p1.len()) == side_after(turn, p.len()));
        assert(legal_path(turn, b, q));
        assert(play(turn, b, q) == play(opponent(turn), b1, q.drop_first()));
    }
}

proof fn lemma_parity(n: int, k: int)
    requires
        0 <= n <= 9,
        k == 9 - n,
    ensures
        (k % 2 == 1) == (n % 2 == 0),
{
}

/// A move by the side to move on an undecided reachable board gives a
/// reachable board.
#[verifier::rlimit(40)]
pub proof fn lemma_reachable_move(c: Seq<Turn>, v: usize)
    requires
        reachable(c),
        outcome(c) == EndType::Ongoing,
        v < 9,
        c[v as int] == Turn::Empty,
    ensures
        reachable(c.update(v as int, turn_at(c))),
        cells_valid(c.update(v as int, turn_at(c))),
        turn_at(c.update(v as int, turn_at(c))) == opponent(turn_at(c)),
{
    let e = empty_board();
    let p = choose|p: Seq<usize>| legal_path(Turn::X, e, p) && play(Turn::X, e, p) == c;
    let t = turn_at(c);
    let c2 = c.update(v as int, t);
    assert(count_empty(e) == 9);
    lemma_play_count(Turn::X, e, p);
    lemma_parity(p.len() as int, count_empty(c) as int);
    assert(side_after(Turn::X, p.len()) == t);
    lemma_play_push(Turn::X, e, p, v);
    assert(legal_path(Turn::X, e, p.push(v)) && play(Turn::X, e, p.push(v)) == c2);
    crate::table::lemma_play_valid(Turn::X, e, p.push(v));
    lemma_count_empty_drops(c, v as int, t);
}

/// The empty board is reachable.
pub proof fn lemma_empty_reachable()
    ensures
        reachable(empty_board()),
        turn_at(empty_board()) == Turn::X,
        outcome(empty_board()) == EndType::Ongoing,
{
    let p = Seq::<usize>::empty();
    assert(legal_path(Turn::X, empty_board(), p) && play(Turn::X, empty_board(), p)
        == empty_board());
    assert(count_empty(empty_board()) == 9);
    assert(empty_board()[0] == Turn::Empty);
    reveal(has_line);
}

/// One move on the empty board decides nothing.
pub proof fn lemma_first_move_ongoing(i: int)
    requires
        0 <= i < 9,
    ensures
        outcome(empty_board().update(i, Turn::X)) == EndType::Ongoing,
{
    reveal(has_line);
    let b = empty_board().update(i, Turn::X);
    if i == 0 {
        assert(b[1] == Turn::Empty);
    } else {
        assert(b[0] == Turn::Empty);
    }
}

/// The move the program makes for `side` on board `b`: the first of the
/// board's ranking for `X`, the last for `O`.
pub open spec fn ai_move(m: Map<Seq<char>, Vec<usize>>, b: Seq<Turn>, side: Turn) -> usize {
    if side == Turn::X {
        m[key_of(b)]@[0]
    } else {
        m[key_of(b)]@.last()
    }
}

/// Picks one element of `items` at random.
/// Relies on rand's `IndexedRandom::choose` with the thread-local generator:
/// `None` for an empty slice, else one of its elements.
#[verifier::external_body]
fn choose_random(items: &Vec<usize>) -> (r: Option<usize>)
    ensures
        items@.len() == 0 <==> r is None,
        r matches Some(x) ==> items@.contains(x),
{
    items.as_slice().choose(&mut rand::rng()).copied()
}

impl Game {
    /// The board is reachable, the side to move is in step with it while the game
    /// runs, and a game is shown as over exactly when its board is decided.
    pub open spec fn wf(&self) -> bool {
        &&& is_move_table(self.table@)
        &&& reachable(self.board@)
        &&& cells_valid(self.board@)
        &&& self.turn == turn_at(self.board@)
        &&& (self.command is Idle <==> outcome(self.board@) == EndType::Ongoing)
    }

    pub open spec fn over(&self) -> bool {
        self.command is Alert
    }

    /// A new game for two people on the empty board, `X` to move.
    pub fn new() -> (g: Game)
        ensures
            g.wf(),
            g.board@ == empty_board(),
            g.turn == Turn::X,
            !g.over(),
            g.player == Turn::Multi,
    {
        let g = Game {
            board: [Turn::Empty; 9],
            turn: Turn::X,
            command: Command::Idle,
            table: calc_ai(),
            player: Turn::Multi,
        };
        assert(g.board@ =~= empty_board());
        proof {
            lemma_empty_reachable();
        }
        g
    }

    /// Plays cell `v` for the side to move. An occupied or out-of-range cell
    /// changes nothing and returns `true`; otherwise the side to move passes to
    /// the other side, and the result tells whether the game is over, with
    /// the message for a win or a draw.
    fn play(&mut self, v: usize) -> (r: bool)
        requires
            old(self).wf(),
            !old(self).over(),
        ensures
            final(self).wf(),
            final(self).table@ == old(self).table@,
            final(self).player == old(self).player,
            v >= 9 || old(self).board@[v as int] != Turn::Empty ==> r && *final(self) == *old(
                self,
            ),
            v < 9 && old(self).board@[v as int] == Turn::Empty ==> {
                let nb = old(self).board@.update(v as int, old(self).turn);
                &&& final(self).board@ == nb
                &&& final(self).turn == opponent(old(self).turn)
                &&& r == (outcome(nb) != EndType::Ongoing)
                &&& outcome(nb) == EndType::Win ==> (final(self).command matches Command::Alert(s)
                    && s@ == win_text(old(self).turn))
                &&& outcome(nb) == EndType::Draw ==> (final(self).command matches Command::Alert(s)
                    && s@ == "Draw!"@)
            },
    {
        if v >= 9 {
            return true;
        }
        if self.board[v] != Turn::Empty {
            return true;
        }
        proof {
            lemma_reachable_move(self.board@, v);
        }
        self.board[v] = self.turn;
        let w = is_won(self.board);
        let mut t = false;
        if w != EndType::Ongoing {
            t = true;
            if w == EndType::Win {
                let mut s = String::from_str(self.turn.name());
                s.append(" Wins!");
                self.command = Command::Alert(s);
            } else {
                self.command = Command::Alert(String::from_str("Draw!"));
            }
        }
        self.turn = new_turn(self.turn);
        t
    }

    /// Handles one message of the host. A click is taken only while the game
    /// runs and, unless two people play, only on the person's turn; when the
    /// person's move leaves the game running, the program answers with its
    /// move from the table. A reset clears the board; the choice of a side
    /// sets it and resets.
    pub fn update(&mut self, message: Message)
        requires
            old(self).wf(),
        ensures
            final(self).wf(),
            message is Nothing ==> *final(self) == *old(self),
            message matches Message::Click(v) ==> {
                let o = *old(self);
                let nb = o.board@.update(v as int, o.turn);
                &&& (o.over() || (o.turn != o.player && o.player != Turn::Multi) || v >= 9
                    || o.board@[v as int] != Turn::Empty) ==> *final(self) == o
                &&& (!o.over() && (o.turn == o.player || o.player == Turn::Multi) && v < 9
                    && o.board@[v as int] == Turn::Empty) ==> {
                    if o.player == Turn::Multi || outcome(nb) != EndType::Ongoing {
                        final(self).board@ == nb
                    } else {
                        final(self).board@ == nb.update(
                            ai_move(o.table@, nb, opponent(o.player)) as int,
                            opponent(o.turn),
                        )
                    }
                }
            },
            message is Reset ==> final(self).player == old(self).player,
            message matches Message::Player(p) ==> final(self).player == p,
            message is Reset || message is Player ==> {
                &&& !final(self).over()
                &&& final(self).player != Turn::O ==> final(self).board@ == empty_board()
                &&& final(self).player == Turn::O ==> exists|i: int|
                    0 <= i < 9 && final(self).board@ == empty_board().update(i, Turn::X)
            },
    {
        match message {
            Message::Nothing => {},
            Message::Click(v) => {
                if let Command::Alert(_) = &self.command {
                    return ;
                }
                if self.turn != self.player && self.player != Turn::Multi {
                    return ;
                }
                if self.play(v) {
                    return ;
                }
                if self.player == Turn::Multi {
                    return ;
                }
                proof {
                    lemma_table_entry(self.table@, self.board@);
                }
                let n = select_move(&self.table, self.board, self.turn);
                self.play(n);
            },
            Message::Reset => {
                self.reset();
            },
            Message::Player(player) => {
                self.player = player;
                self.reset();
            },
        }
    }

    /// Clears the board with `X` to move; when the person plays `O`, the
    /// program opens with a cell picked at random among the ranked moves of the
    /// empty board.
    fn reset(&mut self)
        requires
            is_move_table(old(self).table@),
        ensures
            final(self).wf(),
            final(self).player == old(self).player,
            !final(self).over(),
            final(self).player != Turn::O ==> final(self).board@ == empty_board(),
            final(self).player == Turn::O ==> exists|i: int|
                0 <= i < 9 && final(self).board@ == empty_board().update(i, Turn::X),
    {
        self.command = Command::Idle;
        self.turn = Turn::X;
        self.board = [Turn::Empty; 9];
        assert(self.board@ =~= empty_board());
        proof {
            lemma_empty_reachable();
        }
        if self.player == Turn::O {
            let key = crate::board::board_to_string(self.board);
            let entry = self.table.get(key.as_str());
            proof {
                lemma_table_entry(self.table@, self.board@);
            }
            if let Some(e) = entry {
                if let Some(n) = choose_random(e) {
                    proof {
                        assert(e@.contains(n));
                        assert(n < 9);
                        lemma_first_move_ongoing(n as int);
                    }
                    self.play(n);
                }
            }
        }
    }
}

} // verus!
