//! Legality filter: which squares are attacked, where a side's king
//! stands, and which pseudo-legal moves survive the rule that no move may
//! leave the mover's own king attacked.

use vstd::pervasive::unreached;
use vstd::prelude::*;

use crate::board::{after_move, empty_or_enemy, on_board, sq, Board, ChessError, Color, Piece,
    PieceType};
use crate::moves::{attack_dests, attacks, contains_square, distinct_squares, holds_square,
    lemma_index_holds_square, pseudo_dest, pseudo_dests, push_square};

verus! {

/// True when some piece of color `by` attacks the square (tr, tc).
pub open spec fn attacked(b: Seq<Option<Piece>>, tr: int, tc: int, by: Color) -> bool {
    exists|ar: int, ac: int|
        on_board(ar, ac) && (sq(b, ar, ac) matches Some(p) && p.color == by) && #[trigger] attacks(
            b,
            ar,
            ac,
            tr,
            tc,
        )
}

/// True when a king of color `col` stands on (r, c).
pub open spec fn is_king_at(b: Seq<Option<Piece>>, col: Color, r: int, c: int) -> bool {
    sq(b, r, c) matches Some(p) && p.piece == PieceType::King && p.color == col
}

/// True when a king of color `col` stands somewhere on the board.
pub open spec fn has_king(b: Seq<Option<Piece>>, col: Color) -> bool {
    exists|r: int, c: int| on_board(r, c) && #[trigger] is_king_at(b, col, r, c)
}

/// Row-major order on squares: (a, b2) comes before (r, c).
pub open spec fn square_before(a: int, b2: int, r: int, c: int) -> bool {
    a < r || (a == r && b2 < c)
}

/// True when (r, c) holds the first king of color `col` in row-major
/// order. With the one king of normal play this is simply the king's
/// square; on a deliberately non-standard board with several kings it
/// picks the scan's first.
pub open spec fn first_king_at(b: Seq<Option<Piece>>, col: Color, r: int, c: int) -> bool {
    on_board(r, c) && is_king_at(b, col, r, c) && (forall|a: int, b2: int|
        on_board(a, b2) && square_before(a, b2, r, c) ==> !is_king_at(b, col, a, b2))
}

/// The square of the first king of color `col`, meaningful only when the
/// board has one.
pub open spec fn first_king(b: Seq<Option<Piece>>, col: Color) -> (int, int) {
    choose|rc: (int, int)| first_king_at(b, col, rc.0, rc.1)
}

/// The first king's square is unique, so any square shown to be it is it.
proof fn lemma_first_king_unique(b: Seq<Option<Piece>>, col: Color, r: int, c: int)
    requires
        first_king_at(b, col, r, c),
    ensures
        first_king(b, col) == (r, c),
{
    let rc = (r, c);
    assert(first_king_at(b, col, rc.0, rc.1));
    let kk = first_king(b, col);
    assert(first_king_at(b, col, kk.0, kk.1));
    if kk != rc {
        if square_before(kk.0, kk.1, r, c) {
            assert(!is_king_at(b, col, kk.0, kk.1));
        } else if square_before(r, c, kk.0, kk.1) {
            assert(!is_king_at(b, col, r, c));
        }
    }
}

/// A legal destination for the piece on (fr, fc): pseudo-legal, and the
/// board that results from the move still holds the mover's king and does
/// not leave it attacked by the other color.
pub open spec fn legal_dest(b: Seq<Option<Piece>>, fr: int, fc: int, tr: int, tc: int) -> bool {
    pseudo_dest(b, fr, fc, tr, tc) && {
        let col = (sq(b, fr, fc)->0).color;
        let b2 = after_move(b, fr, fc, tr, tc);
        let k = first_king(b2, col);
        has_king(b2, col) && !attacked(b2, k.0, k.1, col.spec_opposite())
    }
}

/// True when some piece of color `col` has at least one legal move.
pub open spec fn side_has_move(b: Seq<Option<Piece>>, col: Color) -> bool {
    exists|fr: int, fc: int, tr: int, tc: int|
        on_board(fr, fc) && (sq(b, fr, fc) matches Some(p) && p.color == col)
            && #[trigger] legal_dest(b, fr, fc, tr, tc)
}

/// A legal move never leaves the mover's own king attacked: after
/// simulating any legal destination, the square of the mover's king on the
/// resulting board is not attacked by the other color.
pub proof fn lemma_legal_move_keeps_king_safe(
    b: Seq<Option<Piece>>,
    fr: int,
    fc: int,
    tr: int,
    tc: int,
)
    requires
        legal_dest(b, fr, fc, tr, tc),
    ensures
        ({
            let col = (sq(b, fr, fc)->0).color;
            let b2 = after_move(b, fr, fc, tr, tc);
            let k = first_king(b2, col);
            !attacked(b2, k.0, k.1, col.spec_opposite())
        }),
{
}

/// Whether any piece of color `by` attacks the square (tr, tc).
pub fn is_attacked(b: &Board, tr: usize, tc: usize, by: Color) -> (res: bool)
    requires
        tr < 8,
        tc < 8,
    ensures
        res == attacked(b@, tr as int, tc as int, by),
{
    let mut ar: usize = 0;
    while ar < 8
        invariant
            tr < 8,
            tc < 8,
            ar <= 8,
            forall|a: int, b2: int|
                0 <= a < ar && 0 <= b2 < 8 && (sq(b@, a, b2) matches Some(p) && p.color == by)
                    ==> !#[trigger] attacks(b@, a, b2, tr as int, tc as int),
        decreases 8 - ar,
    {
        let mut ac: usize = 0;
        while ac < 8
            invariant
                tr < 8,
                tc < 8,
                ar < 8,
                ac <= 8,
                forall|a: int, b2: int|
                    0 <= a < ar && 0 <= b2 < 8 && (sq(b@, a, b2) matches Some(p) && p.color == by)
                        ==> !#[trigger] attacks(b@, a, b2, tr as int, tc as int),
                forall|b2: int|
                    0 <= b2 < ac && (sq(b@, ar as int, b2) matches Some(p) && p.color == by)
                        ==> !#[trigger] attacks(b@, ar as int, b2, tr as int, tc as int),
            decreases 8 - ac,
        {
            match b.at(ar, ac) {
                Some(p) => {
                    if p.color == by {
                        let dests = attack_dests(b, ar, ac);
                        if contains_square(&dests, tr, tc) {
                            return true;
                        }
                    }
                },
                None => (),
            }
            ac = ac + 1;
        }
        ar = ar + 1;
    }
    false
}

/// The square of the first king of color `col` in row-major scan order,
/// or `None` when that side has no king at all.
pub fn find_king(b: &Board, col: Color) -> (res: Option<(usize, usize)>)
    ensures
        res is Some <==> has_king(b@, col),
        res matches Some(rc) ==> rc.0 < 8 && rc.1 < 8 && first_king_at(
            b@,
            col,
            rc.0 as int,
            rc.1 as int,
        ) && (rc.0 as int, rc.1 as int) == first_king(b@, col),
{
    let mut r: usize = 0;
    while r < 8
        invariant
            r <= 8,
            forall|a: int, b2: int|
                0 <= a < r && 0 <= b2 < 8 ==> !#[trigger] is_king_at(b@, col, a, b2),
        decreases 8 - r,
    {
        let mut c: usize = 0;
        while c < 8
            invariant
                r < 8,
                c <= 8,
                forall|a: int, b2: int|
                    0 <= a < r && 0 <= b2 < 8 ==> !#[trigger] is_king_at(b@, col, a, b2),
                forall|b2: int| 0 <= b2 < c ==> !#[trigger] is_king_at(b@, col, r as int, b2),
            decreases 8 - c,
        {
            match b.at(r, c) {
                Some(p) => {
                    if p.piece == PieceType::King && p.color == col {
                        proof {
                            assert(is_king_at(b@, col, r as int, c as int));
                            lemma_first_king_unique(b@, col, r as int, c as int);
                        }
                        return Some((r, c));
                    }
                },
                None => (),
            }
            c = c + 1;
        }
        r = r + 1;
    }
    None
}

/// Every pseudo-legal destination may be entered by the mover: it is
/// empty or holds an enemy piece.
proof fn lemma_pseudo_enterable(b: Seq<Option<Piece>>, fr: int, fc: int, tr: int, tc: int)
    requires
        pseudo_dest(b, fr, fc, tr, tc),
    ensures
        empty_or_enemy(b, tr, tc, (sq(b, fr, fc)->0).color),
{
}

/// A move never removes the mover's own king from the board: if the side
/// had a king before a pseudo-legal move, it has one after.
proof fn lemma_king_survives(b: Seq<Option<Piece>>, fr: int, fc: int, tr: int, tc: int)
    requires
        b.len() == 64,
        on_board(fr, fc),
        pseudo_dest(b, fr, fc, tr, tc),
        has_king(b, (sq(b, fr, fc)->0).color),
    ensures
        has_king(after_move(b, fr, fc, tr, tc), (sq(b, fr, fc)->0).color),
{
    let p = sq(b, fr, fc)->0;
    let col = p.color;
    let b2 = after_move(b, fr, fc, tr, tc);
    let (kr, kc) = choose|r: int, c: int| on_board(r, c) && #[trigger] is_king_at(b, col, r, c);
    assert(is_king_at(b, col, kr, kc));
    lemma_pseudo_enterable(b, fr, fc, tr, tc);
    if kr == fr && kc == fc {
        // the moving piece is itself a king of this color
        assert(sq(b2, tr, tc) == Some(
            Piece { color: p.color, piece: p.piece, untouched: false },
        ));
        assert(is_king_at(b2, col, tr, tc));
    } else {
        // the king stands elsewhere; the destination cannot hold it since
        // that square is empty or enemy-held
        assert(!(kr == tr && kc == tc));
        assert(kr * 8 + kc != fr * 8 + fc && kr * 8 + kc != tr * 8 + tc);
        assert(sq(b2, kr, kc) == sq(b, kr, kc));
        assert(is_king_at(b2, col, kr, kc));
    }
}

/// The legal destinations of the piece on (fr, fc): the pseudo-legal ones
/// whose simulated board does not leave the mover's king attacked. Fails
/// with `KingMissing` exactly when the mover's side has no king.
pub fn legal_dests(b: &Board, fr: usize, fc: usize) -> (res: Result<
    Vec<(usize, usize)>,
    ChessError,
>)
    requires
        fr < 8,
        fc < 8,
        sq(b@, fr as int, fc as int) is Some,
    ensures
        match res {
            Ok(v) => has_king(b@, (sq(b@, fr as int, fc as int)->0).color) && distinct_squares(v@)
                && (forall|r: int, c: int|
                #[trigger] holds_square(v@, r, c) <==> legal_dest(b@, fr as int, fc as int, r, c)),
            Err(e) => e == ChessError::KingMissing && !has_king(
                b@,
                (sq(b@, fr as int, fc as int)->0).color,
            ),
        },
{
    let p = match b.at(fr, fc) {
        Some(p) => p,
        None => unreached(),
    };
    if find_king(b, p.color).is_none() {
        return Err(ChessError::KingMissing);
    }
    let cands = pseudo_dests(b, fr, fc);
    let mut out: Vec<(usize, usize)> = Vec::new();
    let mut i: usize = 0;
    while i < cands.len()
        invariant
            fr < 8,
            fc < 8,
            sq(b@, fr as int, fc as int) == Some(p),
            has_king(b@, p.color),
            i <= cands@.len(),
            distinct_squares(cands@),
            forall|r: int, c: int|
                #[trigger] holds_square(cands@, r, c) <==> pseudo_dest(
                    b@,
                    fr as int,
                    fc as int,
                    r,
                    c,
                ),
            distinct_squares(out@),
            forall|r: int, c: int|
                #[trigger] holds_square(out@, r, c) ==> holds_square(cands@, r, c) && legal_dest(
                    b@,
                    fr as int,
                    fc as int,
                    r,
                    c,
                ),
            forall|j: int|
                0 <= j < i ==> (legal_dest(
                    b@,
                    fr as int,
                    fc as int,
                    (#[trigger] cands@[j]).0 as int,
                    cands@[j].1 as int,
                ) ==> holds_square(out@, cands@[j].0 as int, cands@[j].1 as int)),
        decreases cands@.len() - i,
    {
        let (tr, tc) = cands[i];
        proof {
            lemma_index_holds_square(cands@, i as int);
        }
        let mut nb: Board = *b;
        let moved = nb.move_piece(fr, fc, tr, tc);
        proof {
            assert(moved is Ok);
            lemma_king_survives(b@, fr as int, fc as int, tr as int, tc as int);
        }
        let king = find_king(&nb, p.color);
        match king {
            Some((kr, kc)) => {
                if !is_attacked(&nb, kr, kc, p.color.opposite()) {
                    push_square(&mut out, tr, tc);
                }
            },
            None => unreached(),
        }
        i = i + 1;
    }
    proof {
        assert forall|r: int, c: int|
            #[trigger] holds_square(out@, r, c) <==> legal_dest(b@, fr as int, fc as int, r, c) by {
            if legal_dest(b@, fr as int, fc as int, r, c) {
                assert(holds_square(cands@, r, c));
                let j = choose|j: int|
                    0 <= j < cands@.len() && cands@[j].0 as int == r && cands@[j].1 as int == c;
                assert(holds_square(out@, cands@[j].0 as int, cands@[j].1 as int));
            }
        }
    }
    Ok(out)
}

/// Whether the side of color `col` has any legal move at all.
pub fn side_can_move(b: &Board, col: Color) -> (res: bool)
    requires
        has_king(b@, col),
    ensures
        res == side_has_move(b@, col),
{
    let mut r: usize = 0;
    while r < 8
        invariant
            has_king(b@, col),
            r <= 8,
            forall|a: int, b2: int, tr: int, tc: int|
                0 <= a < r && 0 <= b2 < 8 && (sq(b@, a, b2) matches Some(p) && p.color == col)
                    ==> !#[trigger] legal_dest(b@, a, b2, tr, tc),
        decreases 8 - r,
    {
        let mut c: usize = 0;
        while c < 8
            invariant
                has_king(b@, col),
                r < 8,
                c <= 8,
                forall|a: int, b2: int, tr: int, tc: int|
                    0 <= a < r && 0 <= b2 < 8 && (sq(b@, a, b2) matches Some(p) && p.color == col)
                        ==> !#[trigger] legal_dest(b@, a, b2, tr, tc),
                forall|b2: int, tr: int, tc: int|
                    0 <= b2 < c && (sq(b@, r as int, b2) matches Some(p) && p.color == col)
                        ==> !#[trigger] legal_dest(b@, r as int, b2, tr, tc),
            decreases 8 - c,
        {
            match b.at(r, c) {
                Some(p) => {
                    if p.color == col {
                        let dests = match legal_dests(b, r, c) {
                            Ok(v) => v,
                            Err(_) => unreached(),
                        };
                        if dests.len() > 0 {
                            proof {
                                lemma_index_holds_square(dests@, 0);
                            }
                            return true;
                        }
                        proof {
                            assert forall|tr: int, tc: int|
                                !#[trigger] legal_dest(b@, r as int, c as int, tr, tc) by {
                                if legal_dest(b@, r as int, c as int, tr, tc) {
                                    assert(holds_square(dests@, tr, tc));
                                }
                            }
                        }
                    }
                },
                None => (),
            }
            c = c + 1;
        }
        r = r + 1;
    }
    false
}

} // verus!
