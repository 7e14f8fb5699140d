use vstd::prelude::*;
use crate::game_state::{GameState, Player};

verus! {

/// Index of cell `(row, col)` in the row-major sequence of cells.
pub open spec fn cell_index(row: int, col: int) -> int {
    3 * row + col
}

/// A board with every cell empty.
pub open spec fn empty_grid() -> Seq<Option<Player>> {
    Seq::new(9, |i: int| None::<Player>)
}

/// The player holding all three cells `a`, `b`, `c`, if any.
pub open spec fn line_owner(g: Seq<Option<Player>>, a: int, b: int, c: int) -> Option<Player> {
    match g[a] {
        Some(p) => if g[b] == Some(p) && g[c] == Some(p) {
            Some(p)
        } else {
            None
        },
        None => None,
    }
}

/// The player holding all of row `k`, if any.
pub open spec fn row_owner(g: Seq<Option<Player>>, k: int) -> Option<Player> {
    line_owner(g, 3 * k, 3 * k + 1, 3 * k + 2)
}

/// The player holding all of column `k`, if any.
pub open spec fn col_owner(g: Seq<Option<Player>>, k: int) -> Option<Player> {
    line_owner(g, k, k + 3, k + 6)
}

/// The owner of the first complete line, scanning rows 0 to 2, then columns
/// 0 to 2, then the diagonal from the top left, then the one from the top right.
pub open spec fn first_line_owner(g: Seq<Option<Player>>) -> Option<Player> {
    if row_owner(g, 0) is Some {
        row_owner(g, 0)
    } else if row_owner(g, 1) is Some {
        row_owner(g, 1)
    } else if row_owner(g, 2) is Some {
        row_owner(g, 2)
    } else if col_owner(g, 0) is Some {
        col_owner(g, 0)
    } else if col_owner(g, 1) is Some {
        col_owner(g, 1)
    } else if col_owner(g, 2) is Some {
        col_owner(g, 2)
    } else if line_owner(g, 0, 4, 8) is Some {
        line_owner(g, 0, 4, 8)
    } else {
        line_owner(g, 2, 4, 6)
    }
}

/// Every cell is taken.
pub open spec fn is_full(g: Seq<Option<Player>>) -> bool {
    forall|i: int| 0 <= i < 9 ==> (#[trigger] g[i]) is Some
}

/// The state of the game on `g`: the first complete line wins, else a full
/// board is a draw, else the game goes on.
#[verifier::opaque]
pub open spec fn outcome(g: Seq<Option<Player>>) -> GameState {
    match first_line_owner(g) {
        Some(p) => GameState::Win(p),
        None => if is_full(g) {
            GameState::Draw
        } else {
            GameState::Ongoing
        },
    }
}

/// 1 where cell `i` is empty, else 0.
pub open spec fn empty_at(g: Seq<Option<Player>>, i: int) -> int {
    if g[i] is None {
        1
    } else {
        0
    }
}

/// The number of empty cells.
pub open spec fn empties(g: Seq<Option<Player>>) -> int {
    empty_at(g, 0) + empty_at(g, 1) + empty_at(g, 2) + empty_at(g, 3) + empty_at(g, 4)
        + empty_at(g, 5) + empty_at(g, 6) + empty_at(g, 7) + empty_at(g, 8)
}

/// The definition of `outcome`.
pub proof fn lemma_outcome_unfold(g: Seq<Option<Player>>)
    ensures
        first_line_owner(g) matches Some(p) ==> outcome(g) == GameState::Win(p),
        first_line_owner(g) is None && is_full(g) ==> outcome(g) == GameState::Draw,
        first_line_owner(g) is None && !is_full(g) ==> outcome(g) == GameState::Ongoing,
{
    reveal(outcome);
}

/// Filling an empty cell leaves one empty cell fewer.
pub proof fn lemma_empties_fill(g: Seq<Option<Player>>, i: int, c: Option<Player>)
    requires
        g.len() == 9,
        0 <= i < 9,
        g[i] is None,
        c is Some,
    ensures
        empties(g.update(i, c)) == empties(g) - 1,
        0 <= empties(g.update(i, c)),
        empties(g) <= 9,
{
}

/// An ongoing board has an empty cell.
pub proof fn lemma_ongoing_not_full(g: Seq<Option<Player>>)
    requires
        g.len() == 9,
        outcome(g) == GameState::Ongoing,
    ensures
        empties(g) >= 1,
{
    lemma_outcome_unfold(g);
    assert(!is_full(g));
    let i = choose|i: int| 0 <= i < 9 && !(g[i] is Some);
    assert(g[i] is None);
}

/// The digit that a cell contributes to the fingerprint.
pub open spec fn cell_code(c: Option<Player>) -> int {
    match c {
        None => 0,
        Some(Player::X) => 1,
        Some(Player::O) => 2,
    }
}

/// The cells from index `i` on, read as a number in base 3, cell `i` lowest.
pub open spec fn code_from(g: Seq<Option<Player>>, i: int) -> int
    decreases 9 - i,
{
    if 9 <= i {
        0
    } else {
        cell_code(g[i]) + 3 * code_from(g, i + 1)
    }
}

/// The fingerprint of a board: its cells read as a number in base 3.
pub open spec fn fingerprint(g: Seq<Option<Player>>) -> int {
    code_from(g, 0)
}

/// The empty cells among the first `n`, as `(row, col)`, in row-major order.
pub open spec fn moves_upto(g: Seq<Option<Player>>, n: int) -> Seq<(usize, usize)>
    decreases n,
{
    if n <= 0 {
        Seq::empty()
    } else if g[n - 1] is None {
        moves_upto(g, n - 1).push((((n - 1) / 3) as usize, ((n - 1) % 3) as usize))
    } else {
        moves_upto(g, n - 1)
    }
}

/// The empty cells of the board, as `(row, col)`, in row-major order.
pub open spec fn available(g: Seq<Option<Player>>) -> Seq<(usize, usize)> {
    moves_upto(g, 9)
}

/// Three to the power `n`.
pub open spec fn pow3(n: nat) -> nat
    decreases n,
{
    if n == 0 {
        1
    } else {
        3 * pow3((n - 1) as nat)
    }
}

proof fn lemma_pow3_le(n: nat)
    requires
        n <= 9,
    ensures
        1 <= pow3(n) <= 19683,
    decreases 9 - n,
{
    if n == 9 {
        reveal_with_fuel(pow3, 10);
    } else {
        lemma_pow3_le(n + 1);
    }
}

proof fn lemma_code_from_bounds(g: Seq<Option<Player>>, i: int)
    requires
        0 <= i <= 9,
    ensures
        0 <= code_from(g, i) < pow3((9 - i) as nat),
    decreases 9 - i,
{
    if i < 9 {
        lemma_code_from_bounds(g, i + 1);
    }
}

proof fn lemma_code_from_injective(g1: Seq<Option<Player>>, g2: Seq<Option<Player>>, i: int)
    requires
        0 <= i <= 9,
        code_from(g1, i) == code_from(g2, i),
    ensures
        forall|j: int| i <= j < 9 ==> g1[j] == g2[j],
    decreases 9 - i,
{
    if i < 9 {
        let c1 = cell_code(g1[i]);
        let c2 = cell_code(g2[i]);
        assert(c1 + 3 * code_from(g1, i + 1) == c2 + 3 * code_from(g2, i + 1));
        assert(c1 == c2 && code_from(g1, i + 1) == code_from(g2, i + 1));
        lemma_code_from_injective(g1, g2, i + 1);
    }
}

/// A fingerprint lies in `0 .. 3^9`.
pub proof fn lemma_fingerprint_bounds(g: Seq<Option<Player>>)
    ensures
        0 <= fingerprint(g) < 19683,
{
    lemma_code_from_bounds(g, 0);
    lemma_pow3_le(9);
}

/// Two boards with the same fingerprint hold the same cells.
pub proof fn lemma_fingerprint_injective(g1: Seq<Option<Player>>, g2: Seq<Option<Player>>)
    requires
        g1.len() == 9,
        g2.len() == 9,
        fingerprint(g1) == fingerprint(g2),
    ensures
        g1 == g2,
{
    lemma_code_from_injective(g1, g2, 0);
    assert(g1 =~= g2);
}

/// `g` keeps every taken cell of `root`: it is `root` or a board that play
/// from `root` can reach.
pub open spec fn extends(g: Seq<Option<Player>>, root: Seq<Option<Player>>) -> bool {
    forall|i: int| 0 <= i < 9 && (#[trigger] root[i]) is Some ==> g[i] == root[i]
}

/// Every key added between `before` and `after` that is the fingerprint of
/// a board is the fingerprint of a board that extends `root`.
pub open spec fn added_within<V>(before: Map<u64, V>, after: Map<u64, V>, root: Seq<Option<Player>>) -> bool {
    forall|g: Seq<Option<Player>>|
        g.len() == 9 && #[trigger] after.contains_key(fingerprint(g) as u64) && !before.contains_key(
            fingerprint(g) as u64,
        ) ==> extends(g, root)
}

/// Adding the entries of a search from `c`, a board that extends `root`,
/// after those of a search from `root`, keeps every added key within `root`.
pub proof fn lemma_added_chain<V>(
    m0: Map<u64, V>,
    m1: Map<u64, V>,
    m2: Map<u64, V>,
    root: Seq<Option<Player>>,
    c: Seq<Option<Player>>,
)
    requires
        added_within(m0, m1, root),
        added_within(m1, m2, c),
        extends(c, root),
    ensures
        added_within(m0, m2, root),
{
    assert forall|g: Seq<Option<Player>>|
        g.len() == 9 && #[trigger] m2.contains_key(fingerprint(g) as u64) && !m0.contains_key(
            fingerprint(g) as u64,
        ) implies extends(g, root) by {
        if !m1.contains_key(fingerprint(g) as u64) {
            assert(extends(g, c));
            assert forall|i: int| 0 <= i < 9 && (#[trigger] root[i]) is Some implies g[i] == root[i] by {
                assert(c[i] == root[i]);
            }
        }
    }
}

/// Storing under the fingerprint of `root` itself keeps every added key
/// within `root`.
pub proof fn lemma_added_insert<V>(m0: Map<u64, V>, m1: Map<u64, V>, root: Seq<Option<Player>>, v: V)
    requires
        added_within(m0, m1, root),
        root.len() == 9,
    ensures
        added_within(m0, m1.insert(fingerprint(root) as u64, v), root),
{
    let m2 = m1.insert(fingerprint(root) as u64, v);
    assert forall|g: Seq<Option<Player>>|
        g.len() == 9 && #[trigger] m2.contains_key(fingerprint(g) as u64) && !m0.contains_key(
            fingerprint(g) as u64,
        ) implies extends(g, root) by {
        lemma_fingerprint_bounds(g);
        lemma_fingerprint_bounds(root);
        if fingerprint(g) as u64 == fingerprint(root) as u64 {
            lemma_fingerprint_injective(g, root);
        } else {
            assert(m1.contains_key(fingerprint(g) as u64));
        }
    }
}

/// A 3x3 tic-tac-toe board. The fingerprint is computed on demand and kept
/// until the next change of a cell.
pub struct Board {
    cells: [Option<Player>; 9],
    cached_hash: Option<u64>,
}

impl Clone for Board {
    /// A copy of the board, with the same cells.
    fn clone(&self) -> (r: Board)
        ensures
            r@ == self@,
    {
        proof { use_type_invariant(self); }
        Board { cells: self.cells, cached_hash: self.cached_hash }
    }
}

impl View for Board {
    type V = Seq<Option<Player>>;

    closed spec fn view(&self) -> Seq<Option<Player>> {
        self.cells@
    }
}

impl Board {
    #[verifier::type_invariant]
    spec fn inv(&self) -> bool {
        self.cached_hash matches Some(h) ==> h == fingerprint(self.cells@)
    }

    /// Every board has nine cells.
    pub proof fn lemma_len(&self)
        ensures
            self@.len() == 9,
    {
    }

    /// Creates an empty board.
    pub fn new() -> (r: Board)
        ensures
            r@ == empty_grid(),
    {
        let b = Board { cells: [None; 9], cached_hash: None };
        assert(b@ =~= empty_grid());
        b
    }

    /// The content of cell `(row, col)`.
    pub fn cell(&self, row: usize, col: usize) -> (r: Option<Player>)
        requires
            row < 3,
            col < 3,
        ensures
            r == self@[cell_index(row as int, col as int)],
    {
        proof { use_type_invariant(self); }
        self.cells[3 * row + col]
    }

    /// Puts `player` on cell `(row, col)`. Returns false, and leaves the board
    /// as it was, where the cell is off the board or already taken.
    pub fn make_move(&mut self, row: usize, col: usize, player: &Player) -> (r: bool)
        ensures
            r == (row < 3 && col < 3 && old(self)@[cell_index(row as int, col as int)] is None),
            r ==> final(self)@ == old(self)@.update(cell_index(row as int, col as int), Some(*player)),
            !r ==> final(self)@ == old(self)@,
    {
        proof { use_type_invariant(&*self); }
        if row >= 3 || col >= 3 {
            return false;
        }
        let i = 3 * row + col;
        if self.cells[i].is_none() {
            let mut cells = self.cells;
            cells[i] = Some(*player);
            self.cached_hash = None;
            self.cells = cells;
            true
        } else {
            false
        }
    }

    /// Empties cell `(row, col)`: takes back a move made on it.
    pub fn undo_move(&mut self, row: usize, col: usize)
        requires
            row < 3,
            col < 3,
        ensures
            final(self)@ == old(self)@.update(cell_index(row as int, col as int), None),
    {
        proof { use_type_invariant(&*self); }
        let mut cells = self.cells;
        cells[3 * row + col] = None;
        self.cached_hash = None;
        self.cells = cells;
    }

    fn line(&self, a: usize, b: usize, c: usize) -> (r: Option<Player>)
        requires
            a < 9,
            b < 9,
            c < 9,
        ensures
            r == line_owner(self@, a as int, b as int, c as int),
    {
        proof { use_type_invariant(self); }
        match self.cells[a] {
            Some(p) => {
                let same_b = match self.cells[b] {
                    Some(q) => q == p,
                    None => false,
                };
                let same_c = match self.cells[c] {
                    Some(q) => q == p,
                    None => false,
                };
                if same_b && same_c {
                    Some(p)
                } else {
                    None
                }
            },
            None => None,
        }
    }

    /// The state of the game: a win for the owner of the first complete line
    /// (rows, then columns, then the two diagonals), else a draw where every
    /// cell is taken, else ongoing.
    pub fn get_winner(&self) -> (r: GameState)
        ensures
            r == outcome(self@),
    {
        proof {
            use_type_invariant(self);
            lemma_outcome_unfold(self@);
        }
        let mut row: usize = 0;
        while row < 3
            invariant
                row <= 3,
                forall|k: int| 0 <= k < row ==> (#[trigger] row_owner(self@, k)) is None,
            decreases 3 - row,
        {
            if let Some(p) = self.line(3 * row, 3 * row + 1, 3 * row + 2) {
                proof { lemma_outcome_unfold(self@); }
                return GameState::Win(p);
            }
            row += 1;
        }
        assert(row_owner(self@, 0) is None && row_owner(self@, 1) is None && row_owner(self@, 2) is None);
        let mut col: usize = 0;
        while col < 3
            invariant
                col <= 3,
                line_owner(self@, 0, 1, 2) is None,
                line_owner(self@, 3, 4, 5) is None,
                line_owner(self@, 6, 7, 8) is None,
                forall|k: int| 0 <= k < col ==> (#[trigger] col_owner(self@, k)) is None,
            decreases 3 - col,
        {
            if let Some(p) = self.line(col, col + 3, col + 6) {
                proof { lemma_outcome_unfold(self@); }
                return GameState::Win(p);
            }
            col += 1;
        }
        assert(col_owner(self@, 0) is None && col_owner(self@, 1) is None && col_owner(self@, 2) is None);
        if let Some(p) = self.line(0, 4, 8) {
            proof { lemma_outcome_unfold(self@); }
            return GameState::Win(p);
        }
        if let Some(p) = self.line(2, 4, 6) {
            proof { lemma_outcome_unfold(self@); }
            return GameState::Win(p);
        }
        let mut i: usize = 0;
        while i < 9
            invariant
                i <= 9,
                self@.len() == 9,
                first_line_owner(self@) is None,
                forall|k: int| 0 <= k < i ==> (#[trigger] self@[k]) is Some,
            decreases 9 - i,
        {
            if self.cells[i].is_none() {
                assert(!is_full(self@));
                proof { lemma_outcome_unfold(self@); }
                return GameState::Ongoing;
            }
            i += 1;
        }
        GameState::Draw
    }

    /// The empty cells, as `(row, col)`, in row-major order.
    pub fn available_moves(&self) -> (r: Vec<(usize, usize)>)
        ensures
            r@ == available(self@),
    {
        proof { use_type_invariant(self); }
        let mut r: Vec<(usize, usize)> = Vec::new();
        let mut i: usize = 0;
        while i < 9
            invariant
                i <= 9,
                self@.len() == 9,
                r@ == moves_upto(self@, i as int),
            decreases 9 - i,
        {
            if self.cells[i].is_none() {
                r.push((i / 3, i % 3));
            }
            i += 1;
        }
        r
    }

    /// The fingerprint of the board (see `fingerprint`), computed once and
    /// kept until a cell changes.
    pub fn hash_state(&mut self) -> (r: u64)
        ensures
            r == fingerprint(old(self)@),
            final(self)@ == old(self)@,
    {
        proof { use_type_invariant(&*self); }
        if let Some(h) = self.cached_hash {
            return h;
        }
        let mut h: u64 = 0;
        let mut i: usize = 9;
        while i > 0
            invariant
                i <= 9,
                self.cells@.len() == 9,
                h == code_from(self.cells@, i as int),
            decreases i,
        {
            i -= 1;
            proof {
                lemma_code_from_bounds(self.cells@, i as int + 1);
                lemma_pow3_le((9 - i) as nat);
            }
            let d: u64 = match self.cells[i] {
                None => 0,
                Some(Player::X) => 1,
                Some(Player::O) => 2,
            };
            h = d + 3 * h;
        }
        self.cached_hash = Some(h);
        h
    }
}

} // verus!
