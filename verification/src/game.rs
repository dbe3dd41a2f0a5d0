//! Game controller: the top-level state machine. It owns the board, the
//! side to move, the pending pawn-promotion choice, and the game phase,
//! and it orchestrates move generation, validation, application and phase
//! recomputation.

use vstd::pervasive::unreached;
use vstd::prelude::*;

use crate::board::{after_move, on_board, sq, Board, ChessError, Color, Piece, PieceType};
use crate::codec::{coord_text, format_coord, parse_coord, parse_coord_spec};
use crate::legal::{attacked, find_king, first_king, has_king, is_attacked, legal_dest,
    legal_dests, side_can_move, side_has_move};
use crate::moves::{contains_square, distinct_squares, holds_square, lemma_index_holds_square};

verus! {

/// The phase of a game. Exactly one holds at any time; `Checkmate` and
/// `Stalemate` are terminal.
#[derive(Copy, Clone, Debug, PartialEq, Eq, Structural)]
pub enum GameState {
    InProgress,
    Check,
    Checkmate,
    Stalemate,
}

/// The rank a pawn of the given color promotes on: the opposite back rank.
pub open spec fn promo_rank(col: Color) -> int {
    match col {
        Color::White => 0,
        Color::Black => 7,
    }
}

/// True when moving the piece on (fr, fc) to row `tr` promotes: the piece
/// is a pawn and `tr` is its promotion rank.
pub open spec fn is_promotion(b: Seq<Option<Piece>>, fr: int, fc: int, tr: int) -> bool {
    sq(b, fr, fc) matches Some(p) && p.piece == PieceType::Pawn && tr == promo_rank(p.color)
}

/// The board after the move from (fr, fc) to (tr, tc) is committed: the
/// plain moved board, with the arriving pawn replaced by the chosen piece
/// when the move promotes.
pub open spec fn applied_board(
    b: Seq<Option<Piece>>,
    fr: int,
    fc: int,
    tr: int,
    tc: int,
    promo: Option<PieceType>,
) -> Seq<Option<Piece>> {
    let base = after_move(b, fr, fc, tr, tc);
    if is_promotion(b, fr, fc, tr) {
        base.update(
            tr * 8 + tc,
            Some(
                Piece {
                    color: (sq(b, fr, fc)->0).color,
                    piece: promo->0,
                    untouched: false,
                },
            ),
        )
    } else {
        base
    }
}

/// The phase of a board from the point of view of the side `col` about to
/// move: checkmate or stalemate when it has no legal move, according to
/// whether its king is attacked; check or in progress otherwise.
pub open spec fn phase_spec(b: Seq<Option<Piece>>, col: Color) -> GameState {
    let k = first_king(b, col);
    let checked = attacked(b, k.0, k.1, col.spec_opposite());
    if side_has_move(b, col) {
        if checked {
            GameState::Check
        } else {
            GameState::InProgress
        }
    } else {
        if checked {
            GameState::Checkmate
        } else {
            GameState::Stalemate
        }
    }
}

/// A game: one board, the phase, the side to move, and the pending
/// promotion choice.
#[derive(Copy, Clone, Debug, PartialEq)]
pub struct Game {
    pub state: GameState,
    pub board: Board,
    pub turn: Color,
    pub promotion: Option<PieceType>,
}

/// The piece kind that starts on column `c` of a back rank: rooks in the
/// corners, then knights, then bishops, the queen on column 3 and the king
/// on column 4.
pub open spec fn back_rank_kind(c: int) -> PieceType {
    if c == 0 || c == 7 {
        PieceType::Rook
    } else if c == 1 || c == 6 {
        PieceType::Knight
    } else if c == 2 || c == 5 {
        PieceType::Bishop
    } else if c == 3 {
        PieceType::Queen
    } else {
        PieceType::King
    }
}

/// The standard opening arrangement: black's back rank on row 0 and pawns
/// on row 1, white's pawns on row 6 and back rank on row 7, everything
/// else empty, every piece untouched.
pub open spec fn is_initial_board(b: Seq<Option<Piece>>) -> bool {
    &&& b.len() == 64
    &&& (forall|c: int|
        0 <= c < 8 ==> sq(b, 0, c) == Some(
            Piece { color: Color::Black, piece: back_rank_kind(c), untouched: true },
        ))
    &&& (forall|c: int|
        0 <= c < 8 ==> sq(b, 1, c) == Some(
            Piece { color: Color::Black, piece: PieceType::Pawn, untouched: true },
        ))
    &&& (forall|c: int|
        0 <= c < 8 ==> sq(b, 6, c) == Some(
            Piece { color: Color::White, piece: PieceType::Pawn, untouched: true },
        ))
    &&& (forall|c: int|
        0 <= c < 8 ==> sq(b, 7, c) == Some(
            Piece { color: Color::White, piece: back_rank_kind(c), untouched: true },
        ))
    &&& (forall|r: int, c: int| 2 <= r < 6 && 0 <= c < 8 ==> sq(b, r, c) is None)
}

/// True when the list of coordinate texts names the square (r, c).
pub open spec fn lists_square(v: Seq<String>, r: int, c: int) -> bool {
    exists|i: int| 0 <= i < v.len() && (#[trigger] v[i])@ == coord_text(r, c)
}

/// Why a submitted move is refused, or `None` when it is accepted. The
/// checks run in this order: a finished game refuses every move; then the
/// two coordinates must parse; the source must hold a piece of the side to
/// move, whose side must still have a king; the destination must be among
/// the legal destinations; a promoting move needs a pending promotion
/// choice and only a promoting move may have one; and the opposing side
/// must still have a king on the resulting board, else the coming phase
/// could not be judged.
pub open spec fn move_error(g: Game, from: Seq<char>, to: Seq<char>) -> Option<ChessError> {
    if g.state == GameState::Checkmate || g.state == GameState::Stalemate {
        Some(ChessError::IllegalMove)
    } else if parse_coord_spec(from) is None || parse_coord_spec(to) is None {
        Some(ChessError::InvalidCoordinate)
    } else {
        let (fr, fc) = parse_coord_spec(from)->0;
        let (tr, tc) = parse_coord_spec(to)->0;
        match sq(g.board@, fr, fc) {
            None => Some(ChessError::EmptySource),
            Some(p) => if p.color != g.turn {
                Some(ChessError::NotYourTurn)
            } else if !has_king(g.board@, p.color) {
                Some(ChessError::KingMissing)
            } else if !legal_dest(g.board@, fr, fc, tr, tc) {
                Some(ChessError::IllegalMove)
            } else if is_promotion(g.board@, fr, fc, tr) && g.promotion is None {
                Some(ChessError::PromotionRequired)
            } else if !is_promotion(g.board@, fr, fc, tr) && g.promotion is Some {
                Some(ChessError::PromotionNotApplicable)
            } else if !has_king(
                applied_board(g.board@, fr, fc, tr, tc, g.promotion),
                g.turn.spec_opposite(),
            ) {
                Some(ChessError::KingMissing)
            } else {
                None
            },
        }
    }
}

/// Terminal detection: when the side to move has no legal move at all,
/// the phase is checkmate if its king stands attacked and stalemate if it
/// does not.
pub proof fn lemma_terminal_phase(b: Seq<Option<Piece>>, col: Color)
    requires
        !side_has_move(b, col),
    ensures
        attacked(b, first_king(b, col).0, first_king(b, col).1, col.spec_opposite())
            ==> phase_spec(b, col) == GameState::Checkmate,
        !attacked(b, first_king(b, col).0, first_king(b, col).1, col.spec_opposite())
            ==> phase_spec(b, col) == GameState::Stalemate,
{
}

/// Compute the phase of `b` for the side `col` about to move.
fn compute_phase(b: &Board, col: Color) -> (res: GameState)
    requires
        has_king(b@, col),
    ensures
        res == phase_spec(b@, col),
{
    let (kr, kc) = match find_king(b, col) {
        Some(rc) => rc,
        None => unreached(),
    };
    let checked = is_attacked(b, kr, kc, col.opposite());
    let movable = side_can_move(b, col);
    if movable {
        if checked {
            GameState::Check
        } else {
            GameState::InProgress
        }
    } else {
        if checked {
            GameState::Checkmate
        } else {
            GameState::Stalemate
        }
    }
}

/// Put one rank of pawns of the given color on `row`.
fn place_pawn_row(b: &mut Board, row: usize, color: Color)
    requires
        row < 8,
    ensures
        forall|c: int|
            0 <= c < 8 ==> sq(final(b)@, row as int, c) == Some(
                Piece { color, piece: PieceType::Pawn, untouched: true },
            ),
        forall|r: int, c: int|
            on_board(r, c) && r != row as int ==> #[trigger] sq(final(b)@, r, c) == sq(old(b)@, r, c),
{
    let mut c: usize = 0;
    while c < 8
        invariant
            row < 8,
            c <= 8,
            forall|j: int|
                0 <= j < c ==> sq(b@, row as int, j) == Some(
                    Piece { color, piece: PieceType::Pawn, untouched: true },
                ),
            forall|r: int, j: int|
                on_board(r, j) && r != row as int ==> sq(b@, r, j) == sq(old(b)@, r, j),
        decreases 8 - c,
    {
        let ghost pre = b@;
        b.place(row, c, Piece { color, piece: PieceType::Pawn, untouched: true });
        proof {
            assert forall|j: int|
                0 <= j <= c as int implies sq(b@, row as int, j) == Some(
                Piece { color, piece: PieceType::Pawn, untouched: true },
            ) by {
                if j < c as int {
                    assert(row as int * 8 + j != row as int * 8 + c as int);
                    assert(sq(b@, row as int, j) == sq(pre, row as int, j));
                }
            }
            assert forall|r: int, j: int|
                on_board(r, j) && r != row as int implies sq(b@, r, j) == sq(old(b)@, r, j) by {
                assert(r * 8 + j != row as int * 8 + c as int);
                assert(sq(b@, r, j) == sq(pre, r, j));
            }
        }
        c = c + 1;
    }
}

/// Put one back rank of the given color on `row`: rooks, knights, bishops,
/// queen and king in the standard order from column 0.
fn place_back_row(b: &mut Board, row: usize, color: Color)
    requires
        row < 8,
    ensures
        forall|c: int|
            0 <= c < 8 ==> sq(final(b)@, row as int, c) == Some(
                Piece { color, piece: back_rank_kind(c), untouched: true },
            ),
        forall|r: int, c: int|
            on_board(r, c) && r != row as int ==> #[trigger] sq(final(b)@, r, c) == sq(old(b)@, r, c),
{
    b.place(row, 0, Piece { color, piece: PieceType::Rook, untouched: true });
    b.place(row, 1, Piece { color, piece: PieceType::Knight, untouched: true });
    b.place(row, 2, Piece { color, piece: PieceType::Bishop, untouched: true });
    b.place(row, 3, Piece { color, piece: PieceType::Queen, untouched: true });
    b.place(row, 4, Piece { color, piece: PieceType::King, untouched: true });
    b.place(row, 5, Piece { color, piece: PieceType::Bishop, untouched: true });
    b.place(row, 6, Piece { color, piece: PieceType::Knight, untouched: true });
    b.place(row, 7, Piece { color, piece: PieceType::Rook, untouched: true });
}

impl Game {
    /// A new game: the standard starting position, white to move, no
    /// pending promotion choice, phase in progress.
    pub fn new() -> (g: Game)
        ensures
            g.state == GameState::InProgress,
            g.turn == Color::White,
            g.promotion is None,
            is_initial_board(g.board@),
    {
        let mut g = Game {
            state: GameState::InProgress,
            board: Board::empty_board(),
            turn: Color::White,
            promotion: None,
        };
        g.setup_initial_board();
        g
    }

    /// Reset the board to the standard opening arrangement. The phase, the
    /// side to move and any pending promotion choice are left as they are.
    pub fn setup_initial_board(&mut self)
        ensures
            is_initial_board(final(self).board@),
            final(self).state == old(self).state,
            final(self).turn == old(self).turn,
            final(self).promotion == old(self).promotion,
    {
        self.board = Board::empty_board();
        let ghost b0 = self.board@;
        place_back_row(&mut self.board, 0, Color::Black);
        let ghost b1 = self.board@;
        place_pawn_row(&mut self.board, 1, Color::Black);
        let ghost b2 = self.board@;
        place_pawn_row(&mut self.board, 6, Color::White);
        let ghost b3 = self.board@;
        place_back_row(&mut self.board, 7, Color::White);
        proof {
            let b4 = self.board@;
            assert forall|c: int|
                0 <= c < 8 implies sq(b4, 0, c) == Some(
                Piece { color: Color::Black, piece: back_rank_kind(c), untouched: true },
            ) by {
                assert(sq(b4, 0, c) == sq(b3, 0, c));
                assert(sq(b3, 0, c) == sq(b2, 0, c));
                assert(sq(b2, 0, c) == sq(b1, 0, c));
            }
            assert forall|c: int|
                0 <= c < 8 implies sq(b4, 1, c) == Some(
                Piece { color: Color::Black, piece: PieceType::Pawn, untouched: true },
            ) by {
                assert(sq(b4, 1, c) == sq(b3, 1, c));
                assert(sq(b3, 1, c) == sq(b2, 1, c));
            }
            assert forall|c: int|
                0 <= c < 8 implies sq(b4, 6, c) == Some(
                Piece { color: Color::White, piece: PieceType::Pawn, untouched: true },
            ) by {
                assert(sq(b4, 6, c) == sq(b3, 6, c));
            }
            assert forall|r: int, c: int| 2 <= r < 6 && 0 <= c < 8 implies sq(b4, r, c) is None by {
                assert(sq(b4, r, c) == sq(b3, r, c));
                assert(sq(b3, r, c) == sq(b2, r, c));
                assert(sq(b2, r, c) == sq(b1, r, c));
                assert(sq(b1, r, c) == sq(b0, r, c));
            }
        }
    }

    /// The current phase of the game.
    pub fn get_game_state(&self) -> (res: GameState)
        ensures
            res == self.state,
    {
        self.state
    }

    /// Choose the piece a pawn becomes on promotion. Queen, rook, bishop
    /// and knight are accepted; asking for a king or a pawn is refused and
    /// clears any pending choice instead.
    pub fn set_promotion(&mut self, piece: PieceType)
        ensures
            final(self).board == old(self).board,
            final(self).state == old(self).state,
            final(self).turn == old(self).turn,
            final(self).promotion == (match piece {
                PieceType::Queen | PieceType::Rook | PieceType::Bishop | PieceType::Knight => Some(
                    piece,
                ),
                PieceType::King | PieceType::Pawn => None::<PieceType>,
            }),
    {
        match piece {
            PieceType::Queen | PieceType::Rook | PieceType::Bishop | PieceType::Knight => {
                self.promotion = Some(piece);
            },
            PieceType::King | PieceType::Pawn => {
                self.promotion = None;
            },
        }
    }

    /// Convert an algebraic coordinate to its (row, column) index pair.
    /// The text must be a valid coordinate; `parse_coord` is the checked
    /// form.
    pub fn pos_to_index(&self, pos: String) -> (res: (usize, usize))
        requires
            parse_coord_spec(pos@) is Some,
        ensures
            ({
                let (r, c) = parse_coord_spec(pos@)->0;
                res.0 as int == r && res.1 as int == c && r < 8 && c < 8
            }),
    {
        match parse_coord(pos.as_str()) {
            Some(rc) => rc,
            None => unreached(),
        }
    }

    /// Convert a (row, column) index pair to its algebraic coordinate,
    /// upper-case file letter first.
    pub fn index_to_pos(&self, index: (usize, usize)) -> (res: String)
        requires
            index.0 < 8,
            index.1 < 8,
        ensures
            res@ == coord_text(index.0 as int, index.1 as int),
    {
        format_coord(index.0, index.1)
    }

    /// The legal destinations of the piece on the named square, as
    /// algebraic coordinates in no particular order, whoever's turn it is;
    /// the empty list for an empty square. `None` when the text is not a
    /// coordinate, or when the piece's side has no king to protect (a
    /// corrupted position).
    pub fn get_possible_moves(&self, position: String) -> (res: Option<Vec<String>>)
        ensures
            match res {
                None => parse_coord_spec(position@) is None || ({
                    let (r, c) = parse_coord_spec(position@)->0;
                    sq(self.board@, r, c) matches Some(p) && !has_king(self.board@, p.color)
                }),
                Some(v) => parse_coord_spec(position@) is Some && ({
                    let (r, c) = parse_coord_spec(position@)->0;
                    match sq(self.board@, r, c) {
                        None => v@.len() == 0,
                        Some(p) => {
                            &&& has_king(self.board@, p.color)
                            &&& (forall|tr: int, tc: int|
                                on_board(tr, tc) ==> (lists_square(v@, tr, tc)
                                    <==> legal_dest(self.board@, r, c, tr, tc)))
                            &&& (forall|i: int|
                                0 <= i < v@.len() ==> (parse_coord_spec(
                                    (#[trigger] v@[i])@,
                                ) matches Some(rc2) && legal_dest(self.board@, r, c, rc2.0, rc2.1)))
                            &&& (forall|i: int, j: int|
                                0 <= i < j < v@.len() ==> (#[trigger] v@[i])@ != (
                                #[trigger] v@[j])@)
                        },
                    }
                }),
            },
    {
        let (r, c) = match parse_coord(position.as_str()) {
            Some(rc) => rc,
            None => {
                return None;
            },
        };
        match self.board.at(r, c) {
            None => Some(Vec::new()),
            Some(_) => {
                let dests = match legal_dests(&self.board, r, c) {
                    Ok(v) => v,
                    Err(_) => {
                        return None;
                    },
                };
                let mut out: Vec<String> = Vec::new();
                let mut i: usize = 0;
                while i < dests.len()
                    invariant
                        r < 8,
                        c < 8,
                        i <= dests@.len(),
                        out@.len() == i,
                        distinct_squares(dests@),
                        forall|tr: int, tc: int|
                            #[trigger] holds_square(dests@, tr, tc) <==> legal_dest(
                                self.board@,
                                r as int,
                                c as int,
                                tr,
                                tc,
                            ),
                        forall|k: int|
                            0 <= k < i ==> (#[trigger] out@[k])@ == coord_text(
                                dests@[k].0 as int,
                                dests@[k].1 as int,
                            ),
                    decreases dests@.len() - i,
                {
                    let (tr, tc) = dests[i];
                    proof {
                        lemma_index_holds_square(dests@, i as int);
                    }
                    out.push(format_coord(tr, tc));
                    i = i + 1;
                }
                proof {
                    let b = self.board@;
                    let fr = r as int;
                    let fc = c as int;
                    assert forall|tr: int, tc: int|
                        on_board(tr, tc) implies (lists_square(out@, tr, tc) <==> legal_dest(
                        b,
                        fr,
                        fc,
                        tr,
                        tc,
                    )) by {
                        if lists_square(out@, tr, tc) {
                            let k = choose|k: int|
                                0 <= k < out@.len() && (#[trigger] out@[k])@ == coord_text(tr, tc);
                            lemma_index_holds_square(dests@, k);
                            crate::codec::lemma_coord_text_injective(
                                dests@[k].0 as int,
                                dests@[k].1 as int,
                                tr,
                                tc,
                            );
                        }
                        if legal_dest(b, fr, fc, tr, tc) {
                            assert(holds_square(dests@, tr, tc));
                            let k = choose|k: int|
                                0 <= k < dests@.len() && dests@[k].0 as int == tr
                                    && dests@[k].1 as int == tc;
                            assert((out@[k])@ == coord_text(tr, tc));
                            assert(lists_square(out@, tr, tc));
                        }
                    }
                    assert forall|i2: int|
                        0 <= i2 < out@.len() implies (parse_coord_spec(
                        (#[trigger] out@[i2])@,
                    ) matches Some(rc2) && legal_dest(b, fr, fc, rc2.0, rc2.1)) by {
                        let tr = dests@[i2].0 as int;
                        let tc = dests@[i2].1 as int;
                        lemma_index_holds_square(dests@, i2);
                        assert(on_board(tr, tc) && legal_dest(b, fr, fc, tr, tc) && (out@[i2])@
                            == coord_text(tr, tc));
                        crate::codec::lemma_parse_format(tr, tc);
                    }
                    assert forall|i2: int, j2: int|
                        0 <= i2 < j2 < out@.len() implies (#[trigger] out@[i2])@ != (
                    #[trigger] out@[j2])@ by {
                        let t1 = dests@[i2];
                        let t2 = dests@[j2];
                        lemma_index_holds_square(dests@, i2);
                        lemma_index_holds_square(dests@, j2);
                        assert(t1 != t2);
                        if (out@[i2])@ == (out@[j2])@ {
                            crate::codec::lemma_coord_text_injective(
                                t1.0 as int,
                                t1.1 as int,
                                t2.0 as int,
                                t2.1 as int,
                            );
                        }
                    }
                }
                Some(out)
            },
        }
    }

    /// Submit a move. On success the board is updated, the side to move
    /// flips, any promotion choice is consumed, and the recomputed phase is
    /// returned. On failure nothing changes and the error says why, as
    /// `move_error` spells out.
    pub fn make_move(&mut self, from: String, to: String) -> (res: Result<GameState, ChessError>)
        ensures
            match res {
                Err(e) => Some(e) == move_error(*old(self), from@, to@) && *final(self) == *old(
                    self,
                ),
                Ok(st) => move_error(*old(self), from@, to@) is None && ({
                    let (fr, fc) = parse_coord_spec(from@)->0;
                    let (tr, tc) = parse_coord_spec(to@)->0;
                    let nb = applied_board(
                        old(self).board@,
                        fr,
                        fc,
                        tr,
                        tc,
                        old(self).promotion,
                    );
                    &&& final(self).board@ == nb
                    &&& final(self).turn == old(self).turn.spec_opposite()
                    &&& final(self).promotion is None
                    &&& final(self).state == phase_spec(nb, old(self).turn.spec_opposite())
                    &&& st == final(self).state
                }),
            },
    {
        if self.state == GameState::Checkmate || self.state == GameState::Stalemate {
            return Err(ChessError::IllegalMove);
        }
        let (fr, fc) = match parse_coord(from.as_str()) {
            Some(rc) => rc,
            None => {
                return Err(ChessError::InvalidCoordinate);
            },
        };
        let (tr, tc) = match parse_coord(to.as_str()) {
            Some(rc) => rc,
            None => {
                return Err(ChessError::InvalidCoordinate);
            },
        };
        let p = match self.board.at(fr, fc) {
            Some(p) => p,
            None => {
                return Err(ChessError::EmptySource);
            },
        };
        if p.color != self.turn {
            return Err(ChessError::NotYourTurn);
        }
        let dests = match legal_dests(&self.board, fr, fc) {
            Ok(v) => v,
            Err(e) => {
                return Err(e);
            },
        };
        if !contains_square(&dests, tr, tc) {
            return Err(ChessError::IllegalMove);
        }
        let promoting = p.piece == PieceType::Pawn && ((p.color == Color::White && tr == 0) || (
        p.color == Color::Black && tr == 7));
        if promoting && self.promotion.is_none() {
            return Err(ChessError::PromotionRequired);
        }
        if !promoting && self.promotion.is_some() {
            return Err(ChessError::PromotionNotApplicable);
        }
        let mut nb = self.board;
        match nb.move_piece(fr, fc, tr, tc) {
            Ok(()) => (),
            Err(_) => unreached(),
        }
        if promoting {
            let kind = match self.promotion {
                Some(k) => k,
                None => unreached(),
            };
            nb.place(tr, tc, Piece { color: p.color, piece: kind, untouched: false });
        }
        let opp = self.turn.opposite();
        if find_king(&nb, opp).is_none() {
            return Err(ChessError::KingMissing);
        }
        self.board = nb;
        self.turn = opp;
        self.promotion = None;
        let st = compute_phase(&self.board, opp);
        self.state = st;
        Ok(st)
    }
}

} // verus!
