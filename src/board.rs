use vstd::prelude::*;

verus! {

/// What a cell holds, and also which side is to move or is played by the program.
#[derive(Clone, Copy, PartialEq, Eq, Debug, Structural)]
pub enum Turn {
    X,
    O,
    Empty,
    Multi,
}

/// How a board stands: still going, won by someone, or drawn.
#[derive(Clone, Copy, PartialEq, Eq, Debug, Structural)]
pub enum EndType {
    Ongoing,
    Win,
    Draw,
}

/// One of the two competing sides.
pub open spec fn is_side(t: Turn) -> bool {
    t == Turn::X || t == Turn::O
}

/// The numeric contribution of a side to a score.
pub open spec fn weight(t: Turn) -> int {
    match t {
        Turn::X => 1,
        Turn::O => -1,
        Turn::Empty => 0,
        Turn::Multi => 2,
    }
}

pub open spec fn opponent(t: Turn) -> Turn {
    match t {
        Turn::X => Turn::O,
        Turn::O => Turn::X,
        _ => Turn::Empty,
    }
}

/// The three cells `x`, `y`, `z` hold the same mark, and it is not empty.
pub open spec fn line_won(b: Seq<Turn>, x: int, y: int, z: int) -> bool {
    b[x] == b[y] && b[x] == b[z] && b[x] != Turn::Empty
}

/// Some row, column or diagonal is complete.
#[verifier::opaque]
pub open spec fn has_line(b: Seq<Turn>) -> bool {
    ||| line_won(b, 0, 1, 2)
    ||| line_won(b, 3, 4, 5)
    ||| line_won(b, 6, 7, 8)
    ||| line_won(b, 0, 3, 6)
    ||| line_won(b, 1, 4, 7)
    ||| line_won(b, 2, 5, 8)
    ||| line_won(b, 0, 4, 8)
    ||| line_won(b, 6, 4, 2)
}

pub open spec fn is_full(b: Seq<Turn>) -> bool {
    forall|i: int| 0 <= i < 9 ==> b[i] != Turn::Empty
}

pub open spec fn outcome(b: Seq<Turn>) -> EndType {
    if has_line(b) {
        EndType::Win
    } else if is_full(b) {
        EndType::Draw
    } else {
        EndType::Ongoing
    }
}

pub open spec fn empty_at(b: Seq<Turn>, i: int) -> nat {
    if b[i] == Turn::Empty {
        1
    } else {
        0
    }
}

/// The number of empty cells of a board.
pub open spec fn count_empty(b: Seq<Turn>) -> nat {
    empty_at(b, 0) + empty_at(b, 1) + empty_at(b, 2) + empty_at(b, 3) + empty_at(b, 4)
        + empty_at(b, 5) + empty_at(b, 6) + empty_at(b, 7) + empty_at(b, 8)
}

/// The indices below `k` of the empty cells, in ascending order.
pub open spec fn empties_upto(b: Seq<Turn>, k: int) -> Seq<usize>
    decreases k,
{
    if k <= 0 {
        Seq::empty()
    } else if b[k - 1] == Turn::Empty {
        empties_upto(b, k - 1).push((k - 1) as usize)
    } else {
        empties_upto(b, k - 1)
    }
}

/// The indices of the empty cells of a board, in ascending order.
pub open spec fn empty_cells(b: Seq<Turn>) -> Seq<usize> {
    empties_upto(b, 9)
}

/// The text that stands for one cell.
pub open spec fn symbol(t: Turn) -> Seq<char> {
    match t {
        Turn::X => "X"@,
        Turn::O => "O"@,
        Turn::Empty => " "@,
        Turn::Multi => "Multiplayer"@,
    }
}

pub open spec fn key_upto(b: Seq<Turn>, k: int) -> Seq<char>
    decreases k,
{
    if k <= 0 {
        Seq::empty()
    } else {
        key_upto(b, k - 1) + symbol(b[k - 1])
    }
}

/// The canonical key of a board: the symbols of its cells in row-major order.
pub open spec fn key_of(b: Seq<Turn>) -> Seq<char> {
    key_upto(b, 9)
}

/// Every cell holds a mark of a side or is empty.
pub open spec fn cells_valid(b: Seq<Turn>) -> bool {
    b.len() == 9 && forall|i: int| 0 <= i < 9 ==> b[i] != Turn::Multi
}

impl Turn {
    /// The text that stands for this value.
    pub fn name(&self) -> (r: &'static str)
        ensures
            r@ == symbol(*self),
    {
        match self {
            Turn::X => "X",
            Turn::O => "O",
            Turn::Empty => " ",
            Turn::Multi => "Multiplayer",
        }
    }

    /// The numeric contribution of a side to a score.
    pub fn weight(&self) -> (r: i8)
        ensures
            r as int == weight(*self),
    {
        match self {
            Turn::X => 1,
            Turn::O => -1,
            Turn::Empty => 0,
            Turn::Multi => 2,
        }
    }
}

fn check(board: [Turn; 9], a: usize, b: usize, c: usize) -> (r: bool)
    requires
        a < 9,
        b < 9,
        c < 9,
    ensures
        r == line_won(board@, a as int, b as int, c as int),
{
    let x = board[a];
    let y = board[b];
    let z = board[c];
    x == y && x == z && x != Turn::Empty
}

/// Classifies a board: `Win` when a line is complete, else `Draw` when no cell is
/// empty, else `Ongoing`.
pub fn is_won(board: [Turn; 9]) -> (r: EndType)
    ensures
        r == outcome(board@),
{
    reveal(has_line);
    if check(board, 0, 1, 2) || check(board, 3, 4, 5) || check(board, 6, 7, 8) || check(
        board,
        0,
        3,
        6,
    ) || check(board, 1, 4, 7) || check(board, 2, 5, 8) || check(board, 0, 4, 8) || check(
        board,
        6,
        4,
        2,
    ) {
        return EndType::Win;
    }
    let mut i: usize = 0;
    while i < 9
        invariant
            i <= 9,
            !has_line(board@),
            forall|j: int| 0 <= j < i ==> board@[j] != Turn::Empty,
        decreases 9 - i,
    {
        if board[i] == Turn::Empty {
            return EndType::Ongoing;
        }
        i = i + 1;
    }
    EndType::Draw
}

/// The indices of the empty cells of a board, in ascending order.
pub fn get_moves(board: [Turn; 9]) -> (r: Vec<usize>)
    ensures
        r@ == empty_cells(board@),
{
    let mut v: Vec<usize> = Vec::new();
    let mut i: usize = 0;
    while i < 9
        invariant
            i <= 9,
            v@ == empties_upto(board@, i as int),
        decreases 9 - i,
    {
        if board[i] == Turn::Empty {
            v.push(i);
        }
        i = i + 1;
    }
    v
}

/// The side that moves after `turn`; `Empty` for anything that is not a side.
pub fn new_turn(turn: Turn) -> (r: Turn)
    ensures
        r == opponent(turn),
{
    match turn {
        Turn::X => Turn::O,
        Turn::O => Turn::X,
        _ => Turn::Empty,
    }
}

/// The canonical key of a board.
pub fn board_to_string(board: [Turn; 9]) -> (r: String)
    ensures
        r@ == key_of(board@),
{
    let mut s = String::new();
    let mut i: usize = 0;
    while i < 9
        invariant
            i <= 9,
            s@ == key_upto(board@, i as int),
        decreases 9 - i,
    {
        s.append(board[i].name());
        i = i + 1;
    }
    s
}

/// Properties of the empty-cell list below `k`: ascending, in range, and holding
/// exactly the empty cells.
pub proof fn lemma_empties_upto(b: Seq<Turn>, k: int)
    requires
        0 <= k <= 9,
    ensures
        empties_upto(b, k).len() <= k,
        forall|p: int, q: int|
            0 <= p < q < empties_upto(b, k).len() ==> #[trigger] empties_upto(b, k)[p]
                < #[trigger] empties_upto(b, k)[q],
        forall|p: int|
            #![trigger empties_upto(b, k)[p]]
            0 <= p < empties_upto(b, k).len() ==> (empties_upto(b, k)[p] as int) < k
                && b[empties_upto(b, k)[p] as int] == Turn::Empty,
        forall|i: int|
            0 <= i < k && b[i] == Turn::Empty ==> #[trigger] empties_upto(b, k).contains(
                i as usize,
            ),
    decreases k,
{
    if k > 0 {
        lemma_empties_upto(b, k - 1);
        let prev = empties_upto(b, k - 1);
        let cur = empties_upto(b, k);
        assert forall|i: int| 0 <= i < k && b[i] == Turn::Empty implies #[trigger] cur.contains(
            i as usize,
        ) by {
            if i < k - 1 {
                assert(prev.contains(i as usize));
                let p = choose|p: int| 0 <= p < prev.len() && prev[p] == i as usize;
                assert(cur[p] == i as usize);
            } else {
                assert(cur[prev.len() as int] == i as usize);
            }
        }
    }
}

} // verus!
