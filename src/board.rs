use vstd::prelude::*;

verus! {

/// Width of the grid.
pub const WIDTH: usize = 4;

/// Height of the grid.
pub const HEIGHT: usize = 4;

/// Number of cells on the grid.
pub const CELLS: usize = 16;

/// The two sides of the game.
#[derive(Copy, Clone, Debug, PartialEq, Eq, Structural)]
pub enum Player {
    Dark,
    Light,
}

/// The content of one cell of the grid.
#[derive(Copy, Clone, Debug, PartialEq, Eq, Structural)]
pub enum Square {
    Dark,
    Light,
    Empty,
}

/// Game board, stored row-major: cell (x, y) lives at index `x + WIDTH * y`.
#[derive(Copy, Clone, Debug)]
pub struct Board(pub [Square; CELLS]);

impl View for Board {
    type V = Seq<Square>;

    open spec fn view(&self) -> Seq<Square> {
        self.0@
    }
}

/// Index of (x, y) when it lies on the grid.
pub open spec fn spec_coord(x: int, y: int) -> Option<int> {
    if 0 <= x < WIDTH && 0 <= y < HEIGHT {
        Some(x + WIDTH * y)
    } else {
        None
    }
}

/// Number of cells of `s` that hold `sq`.
pub open spec fn count(s: Seq<Square>, sq: Square) -> nat
    decreases s.len(),
{
    if s.len() == 0 {
        0
    } else {
        count(s.drop_last(), sq) + if s.last() == sq {
            1nat
        } else {
            0nat
        }
    }
}

/// The square that a player's pieces show.
pub open spec fn square_of(p: Player) -> Square {
    match p {
        Player::Dark => Square::Dark,
        Player::Light => Square::Light,
    }
}

impl Player {
    pub open spec fn spec_opposite(self) -> Player {
        match self {
            Player::Dark => Player::Light,
            Player::Light => Player::Dark,
        }
    }

    /// Yin and yang...
    pub fn opposite(self) -> (r: Self)
        ensures
            r == self.spec_opposite(),
            r != self,
    {
        match self {
            Self::Dark => Self::Light,
            Self::Light => Self::Dark,
        }
    }

    /// The square that this player's pieces show.
    pub fn square(self) -> (r: Square)
        ensures
            r == square_of(self),
    {
        match self {
            Self::Dark => Square::Dark,
            Self::Light => Square::Light,
        }
    }
}

/// Taking the opposite player twice gives the player back.
pub proof fn lemma_opposite_involution(p: Player)
    ensures
        p.spec_opposite().spec_opposite() == p,
        p.spec_opposite() != p,
{
}

/// Every cell is owned by one side or is empty, so the three counts add up to the size.
pub proof fn lemma_counts_cover(s: Seq<Square>)
    ensures
        count(s, Square::Dark) + count(s, Square::Light) + count(s, Square::Empty) == s.len(),
    decreases s.len(),
{
    if s.len() > 0 {
        lemma_counts_cover(s.drop_last());
    }
}

/// On a board the three counts add up to the number of cells.
pub proof fn lemma_board_counts(b: Board)
    ensures
        count(b@, Square::Dark) + count(b@, Square::Light) + count(b@, Square::Empty) == CELLS,
{
    lemma_counts_cover(b@);
}

/// If every `sq` cell of `a` is still `sq` in `b`, then `b` has at least as many.
pub proof fn lemma_count_le(a: Seq<Square>, b: Seq<Square>, sq: Square)
    requires
        a.len() == b.len(),
        forall|i: int| 0 <= i < a.len() && a[i] == sq ==> b[i] == sq,
    ensures
        count(a, sq) <= count(b, sq),
    decreases a.len(),
{
    if a.len() > 0 {
        lemma_count_le(a.drop_last(), b.drop_last(), sq);
    }
}

/// If moreover some cell becomes `sq`, then `b` has strictly more.
pub proof fn lemma_count_lt(a: Seq<Square>, b: Seq<Square>, sq: Square, j: int)
    requires
        a.len() == b.len(),
        forall|i: int| 0 <= i < a.len() && a[i] == sq ==> b[i] == sq,
        0 <= j < a.len(),
        a[j] != sq,
        b[j] == sq,
    ensures
        count(a, sq) < count(b, sq),
    decreases a.len(),
{
    if j == a.len() - 1 {
        lemma_count_le(a.drop_last(), b.drop_last(), sq);
    } else {
        lemma_count_lt(a.drop_last(), b.drop_last(), sq, j);
    }
}

impl Board {
    /// Create an empty board
    pub fn empty() -> (r: Self)
        ensures
            r@ == Seq::new(CELLS as nat, |i: int| Square::Empty),
    {
        let r = Board([Square::Empty; CELLS]);
        assert(r@ =~= Seq::new(CELLS as nat, |i: int| Square::Empty));
        r
    }

    /// Check if this is a valid position on the board, and if so return its index
    fn coord(x: usize, y: usize) -> (r: Option<usize>)
        ensures
            match r {
                Some(i) => spec_coord(x as int, y as int) == Some(i as int),
                None => spec_coord(x as int, y as int) is None,
            },
    {
        if x < WIDTH && y < HEIGHT {
            Some(x + WIDTH * y)
        } else {
            None
        }
    }

    /// Get the piece at this coordinate, returns None if it is out of bounds
    pub fn get(&self, x: usize, y: usize) -> (r: Option<&Square>)
        ensures
            match r {
                Some(sq) => spec_coord(x as int, y as int) is Some
                    && *sq == self@[spec_coord(x as int, y as int)->0],
                None => spec_coord(x as int, y as int) is None,
            },
    {
        match Self::coord(x, y) {
            Some(i) => Some(&self.0[i]),
            None => None,
        }
    }

    /// Get the piece at this coordinate, returns None if it is out of bounds
    pub fn get_mut(&mut self, x: usize, y: usize) -> (r: Option<&mut Square>)
        ensures
            match r {
                Some(m) => spec_coord(x as int, y as int) is Some
                    && *m == old(self)@[spec_coord(x as int, y as int)->0]
                    && final(self)@ == old(self)@.update(spec_coord(x as int, y as int)->0, *final(m)),
                None => spec_coord(x as int, y as int) is None && *final(self) == *old(self),
            },
    {
        match Self::coord(x, y) {
            Some(i) => Some(&mut self.0[i]),
            None => None,
        }
    }

    /// Return scores of (Dark, Light)
    pub fn scores(&self) -> (r: (usize, usize))
        ensures
            r.0 == count(self@, Square::Dark),
            r.1 == count(self@, Square::Light),
    {
        let mut dark: usize = 0;
        let mut light: usize = 0;
        let mut i: usize = 0;
        while i < CELLS
            invariant
                i <= CELLS,
                dark == count(self@.take(i as int), Square::Dark),
                light == count(self@.take(i as int), Square::Light),
                dark + light <= i,
            decreases CELLS - i,
        {
            assert(self@.take(i + 1).drop_last() =~= self@.take(i as int));
            match self.0[i] {
                Square::Dark => dark += 1,
                Square::Light => light += 1,
                Square::Empty => {},
            }
            i += 1;
        }
        assert(self@.take(CELLS as int) =~= self@);
        (dark, light)
    }
}

} // verus!
