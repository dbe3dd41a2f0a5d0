//! Board model: colors, piece kinds, pieces, the 8x8 grid, and the error
//! type of the engine.
//!
//! The grid is stored as a flat array of 64 optional occupants, in row-major
//! order: square (row, column) lives at index `row * 8 + column`. Row 0 is
//! black's back rank, row 7 is white's.

use vstd::prelude::*;

verus! {

#[derive(Copy, Clone, Debug, PartialEq, Eq, Structural)]
pub enum Color {
    White,
    Black,
}

#[derive(Copy, Clone, Debug, PartialEq, Eq, Structural)]
pub enum PieceType {
    King,
    Queen,
    Rook,
    Bishop,
    Knight,
    Pawn,
}

/// A piece value. `untouched` starts true and turns false the first time
/// the piece is the source of an applied move; it governs the pawn's
/// double-step eligibility.
#[derive(Copy, Clone, Debug, PartialEq, Eq, Structural)]
pub struct Piece {
    pub color: Color,
    pub piece: PieceType,
    pub untouched: bool,
}

/// The recoverable failures of the engine.
#[derive(Copy, Clone, Debug, PartialEq, Eq, Structural)]
pub enum ChessError {
    /// The text is not one file letter in a-h (either case) followed by one
    /// rank digit in 1-8.
    InvalidCoordinate,
    /// A move was asked of an unoccupied source square.
    EmptySource,
    /// The piece on the source square does not belong to the side to move.
    NotYourTurn,
    /// The destination is not among the legal destinations of the source
    /// square, or the game is already over.
    IllegalMove,
    /// The move puts a pawn on the far rank and no promotion piece was
    /// chosen beforehand.
    PromotionRequired,
    /// A promotion piece was chosen but the move does not promote.
    PromotionNotApplicable,
    /// A side whose king the move logic must locate has no king on the
    /// board: a corrupted or deliberately non-standard position.
    KingMissing,
}

impl Color {
    /// The other color.
    pub open spec fn spec_opposite(self) -> Color {
        match self {
            Color::White => Color::Black,
            Color::Black => Color::White,
        }
    }

    #[verifier::when_used_as_spec(spec_opposite)]
    pub fn opposite(self) -> (res: Color)
        ensures
            res == self.spec_opposite(),
    {
        match self {
            Color::White => Color::Black,
            Color::Black => Color::White,
        }
    }
}

/// True of the (row, column) pairs that name a square of the board.
pub open spec fn on_board(r: int, c: int) -> bool {
    0 <= r < 8 && 0 <= c < 8
}

/// Occupant of square (r, c) in a board view.
pub open spec fn sq(b: Seq<Option<Piece>>, r: int, c: int) -> Option<Piece> {
    b[r * 8 + c]
}

/// True when square (r, c) is empty or holds a piece of the other color
/// than `col`: the squares a piece of color `col` may enter.
pub open spec fn empty_or_enemy(b: Seq<Option<Piece>>, r: int, c: int, col: Color) -> bool {
    match sq(b, r, c) {
        None => true,
        Some(p) => p.color != col,
    }
}

/// The board after the piece on (fr, fc) moves to (tr, tc): the source is
/// cleared, any occupant of the destination is discarded, and the moved
/// piece lands with `untouched` false.
pub open spec fn after_move(
    b: Seq<Option<Piece>>,
    fr: int,
    fc: int,
    tr: int,
    tc: int,
) -> Seq<Option<Piece>> {
    let p = sq(b, fr, fc)->0;
    b.update(fr * 8 + fc, None).update(
        tr * 8 + tc,
        Some(Piece { color: p.color, piece: p.piece, untouched: false }),
    )
}

/// An 8x8 grid of optional occupants. It owns piece placement and knows
/// nothing of movement rules.
#[derive(Copy, Clone, Debug, PartialEq)]
pub struct Board {
    pub cells: [Option<Piece>; 64],
}

impl View for Board {
    type V = Seq<Option<Piece>>;

    open spec fn view(&self) -> Seq<Option<Piece>> {
        self.cells@
    }
}

impl Board {
    /// A board with every square empty.
    pub fn empty_board() -> (b: Board)
        ensures
            b@.len() == 64,
            forall|r: int, c: int| on_board(r, c) ==> sq(b@, r, c) is None,
    {
        Board { cells: [None; 64] }
    }

    /// Read-only lookup of one square.
    pub fn at(&self, row: usize, col: usize) -> (res: Option<Piece>)
        requires
            row < 8,
            col < 8,
        ensures
            res == sq(self@, row as int, col as int),
    {
        self.cells[row * 8 + col]
    }

    /// Put a piece on a square, replacing any occupant.
    pub fn place(&mut self, row: usize, col: usize, piece: Piece)
        requires
            row < 8,
            col < 8,
        ensures
            final(self)@ == old(self)@.update(row as int * 8 + col as int, Some(piece)),
    {
        self.cells[row * 8 + col] = Some(piece);
    }

    /// Empty a square, discarding any occupant.
    pub fn clear(&mut self, row: usize, col: usize)
        requires
            row < 8,
            col < 8,
        ensures
            final(self)@ == old(self)@.update(row as int * 8 + col as int, None),
    {
        self.cells[row * 8 + col] = None;
    }

    /// Move the occupant of `from` to `to`, discarding any occupant of `to`
    /// and marking the moved piece as touched. Fails, changing nothing, only
    /// when `from` is empty.
    pub fn move_piece(
        &mut self,
        from_row: usize,
        from_col: usize,
        to_row: usize,
        to_col: usize,
    ) -> (res: Result<(), ChessError>)
        requires
            from_row < 8,
            from_col < 8,
            to_row < 8,
            to_col < 8,
        ensures
            match res {
                Ok(()) => sq(old(self)@, from_row as int, from_col as int) is Some && final(self)@
                    == after_move(
                    old(self)@,
                    from_row as int,
                    from_col as int,
                    to_row as int,
                    to_col as int,
                ),
                Err(e) => e == ChessError::EmptySource && sq(
                    old(self)@,
                    from_row as int,
                    from_col as int,
                ) is None && *final(self) == *old(self),
            },
    {
        match self.cells[from_row * 8 + from_col] {
            None => Err(ChessError::EmptySource),
            Some(p) => {
                self.cells[from_row * 8 + from_col] = None;
                self.cells[to_row * 8 + to_col] =
                    Some(Piece { color: p.color, piece: p.piece, untouched: false });
                Ok(())
            },
        }
    }
}

} // verus!
