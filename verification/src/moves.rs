//! Move generator: the pseudo-legal destination squares of the piece on a
//! given square, and the squares a piece attacks.
//!
//! Pseudo-legal means the move obeys the piece's geometry and the
//! blocking/capture rules, but is not yet checked against leaving the
//! mover's own king attacked; that narrowing is the legality filter's job.

use vstd::prelude::*;

use crate::board::{empty_or_enemy, on_board, sq, Board, Color, Piece, PieceType};

verus! {

/// True when the destination list `v` holds the square (r, c).
pub open spec fn holds_square(v: Seq<(usize, usize)>, r: int, c: int) -> bool {
    exists|i: int| 0 <= i < v.len() && v[i].0 as int == r && v[i].1 as int == c
}

/// True when `v` names no square twice: the list is a set.
pub open spec fn distinct_squares(v: Seq<(usize, usize)>) -> bool {
    forall|i: int, j: int| 0 <= i < j < v.len() ==> v[i] != v[j]
}

/// Each entry of a destination list is a square that the list holds.
pub proof fn lemma_index_holds_square(v: Seq<(usize, usize)>, i: int)
    requires
        0 <= i < v.len(),
    ensures
        holds_square(v, v[i].0 as int, v[i].1 as int),
{
}

/// The knight's jump: two squares along one axis and one along the other.
pub open spec fn knight_jump(fr: int, fc: int, tr: int, tc: int) -> bool {
    ||| (tr == fr - 2 && (tc == fc + 1 || tc == fc - 1))
    ||| (tr == fr + 2 && (tc == fc + 1 || tc == fc - 1))
    ||| (tc == fc - 2 && (tr == fr + 1 || tr == fr - 1))
    ||| (tc == fc + 2 && (tr == fr + 1 || tr == fr - 1))
}

/// The king's step: one square in any direction.
pub open spec fn king_step(fr: int, fc: int, tr: int, tc: int) -> bool {
    ||| (tr == fr - 1 && (tc == fc - 1 || tc == fc || tc == fc + 1))
    ||| (tr == fr + 1 && (tc == fc - 1 || tc == fc || tc == fc + 1))
    ||| (tr == fr && (tc == fc - 1 || tc == fc + 1))
}

/// A clear line due north (towards row 0) from (fr, fc) to (tr, tc): same
/// column, destination above, every square strictly between empty.
pub open spec fn ray_clear_n(b: Seq<Option<Piece>>, fr: int, fc: int, tr: int, tc: int) -> bool {
    tc == fc && tr < fr && (forall|j: int| tr < j < fr ==> sq(b, j, fc) is None)
}

/// A clear line due south (towards row 7).
pub open spec fn ray_clear_s(b: Seq<Option<Piece>>, fr: int, fc: int, tr: int, tc: int) -> bool {
    tc == fc && tr > fr && (forall|j: int| fr < j < tr ==> sq(b, j, fc) is None)
}

/// A clear line due west (towards column 0).
pub open spec fn ray_clear_w(b: Seq<Option<Piece>>, fr: int, fc: int, tr: int, tc: int) -> bool {
    tr == fr && tc < fc && (forall|j: int| tc < j < fc ==> sq(b, fr, j) is None)
}

/// A clear line due east (towards column 7).
pub open spec fn ray_clear_e(b: Seq<Option<Piece>>, fr: int, fc: int, tr: int, tc: int) -> bool {
    tr == fr && tc > fc && (forall|j: int| fc < j < tc ==> sq(b, fr, j) is None)
}

/// A clear diagonal line north-east: row falls as the column rises. The
/// squares strictly between lie on the same anti-diagonal.
pub open spec fn ray_clear_ne(b: Seq<Option<Piece>>, fr: int, fc: int, tr: int, tc: int) -> bool {
    fr - tr == tc - fc && tr < fr && (forall|r2: int, c2: int|
        tr < r2 < fr && fr - r2 == c2 - fc ==> sq(b, r2, c2) is None)
}

/// A clear diagonal line north-west: row and column both fall.
pub open spec fn ray_clear_nw(b: Seq<Option<Piece>>, fr: int, fc: int, tr: int, tc: int) -> bool {
    fr - tr == fc - tc && tr < fr && (forall|r2: int, c2: int|
        tr < r2 < fr && fr - r2 == fc - c2 ==> sq(b, r2, c2) is None)
}

/// A clear diagonal line south-east: row and column both rise.
pub open spec fn ray_clear_se(b: Seq<Option<Piece>>, fr: int, fc: int, tr: int, tc: int) -> bool {
    tr - fr == tc - fc && tr > fr && (forall|r2: int, c2: int|
        fr < r2 < tr && r2 - fr == c2 - fc ==> sq(b, r2, c2) is None)
}

/// A clear diagonal line south-west: row rises as the column falls.
pub open spec fn ray_clear_sw(b: Seq<Option<Piece>>, fr: int, fc: int, tr: int, tc: int) -> bool {
    tr - fr == fc - tc && tr > fr && (forall|r2: int, c2: int|
        fr < r2 < tr && r2 - fr == fc - c2 ==> sq(b, r2, c2) is None)
}

/// A rook destination: a clear orthogonal line ending on an enterable
/// square of the board.
pub open spec fn orth_dest(
    b: Seq<Option<Piece>>,
    fr: int,
    fc: int,
    tr: int,
    tc: int,
    col: Color,
) -> bool {
    on_board(tr, tc) && empty_or_enemy(b, tr, tc, col) && (ray_clear_n(b, fr, fc, tr, tc)
        || ray_clear_s(b, fr, fc, tr, tc) || ray_clear_w(b, fr, fc, tr, tc) || ray_clear_e(
        b,
        fr,
        fc,
        tr,
        tc,
    ))
}

/// A bishop destination: a clear diagonal line ending on an enterable
/// square of the board.
pub open spec fn diag_dest(
    b: Seq<Option<Piece>>,
    fr: int,
    fc: int,
    tr: int,
    tc: int,
    col: Color,
) -> bool {
    on_board(tr, tc) && empty_or_enemy(b, tr, tc, col) && (ray_clear_ne(b, fr, fc, tr, tc)
        || ray_clear_nw(b, fr, fc, tr, tc) || ray_clear_se(b, fr, fc, tr, tc) || ray_clear_sw(
        b,
        fr,
        fc,
        tr,
        tc,
    ))
}

/// The forward row direction of a pawn: white advances towards row 0,
/// black towards row 7.
pub open spec fn pawn_dir(col: Color) -> int {
    match col {
        Color::White => -1,
        Color::Black => 1,
    }
}

/// A pawn destination for the pawn `p` on (fr, fc): single step onto an
/// empty square, double step while untouched over two empty squares, or a
/// diagonal capture of an enemy piece.
pub open spec fn pawn_dest(
    b: Seq<Option<Piece>>,
    fr: int,
    fc: int,
    tr: int,
    tc: int,
    p: Piece,
) -> bool {
    let d = pawn_dir(p.color);
    ||| (tr == fr + d && tc == fc && sq(b, tr, tc) is None)
    ||| (tr == fr + 2 * d && tc == fc && p.untouched && sq(b, fr + d, fc) is None && sq(
        b,
        tr,
        tc,
    ) is None)
    ||| (tr == fr + d && (tc == fc + 1 || tc == fc - 1) && (sq(b, tr, tc) matches Some(q)
        && q.color != p.color))
}

/// A pseudo-legal destination of the piece on (fr, fc): obeys that piece's
/// geometry and the blocking/capture rules, with no concern yet for the
/// mover's own king.
pub open spec fn pseudo_dest(b: Seq<Option<Piece>>, fr: int, fc: int, tr: int, tc: int) -> bool {
    on_board(tr, tc) && (sq(b, fr, fc) matches Some(p) && match p.piece {
        PieceType::King => king_step(fr, fc, tr, tc) && empty_or_enemy(b, tr, tc, p.color),
        PieceType::Queen => orth_dest(b, fr, fc, tr, tc, p.color) || diag_dest(
            b,
            fr,
            fc,
            tr,
            tc,
            p.color,
        ),
        PieceType::Rook => orth_dest(b, fr, fc, tr, tc, p.color),
        PieceType::Bishop => diag_dest(b, fr, fc, tr, tc, p.color),
        PieceType::Knight => knight_jump(fr, fc, tr, tc) && empty_or_enemy(b, tr, tc, p.color),
        PieceType::Pawn => pawn_dest(b, fr, fc, tr, tc, p),
    })
}

/// True when the piece on (ar, ac) attacks the square (tr, tc): the squares
/// it could capture on. For every piece but the pawn these are its
/// pseudo-legal destinations; a pawn attacks exactly its two forward
/// diagonals, whether or not they are occupied, and never its forward
/// moving squares.
pub open spec fn attacks(b: Seq<Option<Piece>>, ar: int, ac: int, tr: int, tc: int) -> bool {
    on_board(tr, tc) && (sq(b, ar, ac) matches Some(p) && match p.piece {
        PieceType::Pawn => tr == ar + pawn_dir(p.color) && (tc == ac + 1 || tc == ac - 1),
        _ => pseudo_dest(b, ar, ac, tr, tc),
    })
}

/// A knight is never sent off the board or onto a square its own side
/// already holds: on any board, every pseudo-legal destination of a knight
/// is a board square that is empty or holds a piece of the other color.
pub proof fn lemma_knight_keeps_to_enemy_ground(
    b: Seq<Option<Piece>>,
    fr: int,
    fc: int,
    tr: int,
    tc: int,
)
    requires
        sq(b, fr, fc) matches Some(p) && p.piece == PieceType::Knight,
        pseudo_dest(b, fr, fc, tr, tc),
    ensures
        on_board(tr, tc),
        empty_or_enemy(b, tr, tc, (sq(b, fr, fc)->0).color),
{
}

/// True when (r2, c2) lies strictly between (fr, fc) and (tr, tc) on the
/// straight line through them: same row, same column, or the same
/// (anti-)diagonal, strictly inside the segment.
pub open spec fn between_on_line(fr: int, fc: int, tr: int, tc: int, r2: int, c2: int) -> bool {
    ||| (fr == tr && r2 == fr && (fc < c2 < tc || tc < c2 < fc))
    ||| (fc == tc && c2 == fc && (fr < r2 < tr || tr < r2 < fr))
    ||| (tr - fr == tc - fc && r2 - fr == c2 - fc && (fr < r2 < tr || tr < r2 < fr))
    ||| (tr - fr == fc - tc && r2 - fr == fc - c2 && (fr < r2 < tr || tr < r2 < fr))
}

/// A sliding piece never jumps: for every pseudo-legal destination of a
/// rook, bishop or queen, each square strictly between the source and the
/// destination is empty, and the destination itself is empty or holds a
/// piece of the other color.
pub proof fn lemma_slider_never_jumps(
    b: Seq<Option<Piece>>,
    fr: int,
    fc: int,
    tr: int,
    tc: int,
)
    requires
        sq(b, fr, fc) matches Some(p) && (p.piece == PieceType::Rook || p.piece
            == PieceType::Bishop || p.piece == PieceType::Queen),
        pseudo_dest(b, fr, fc, tr, tc),
    ensures
        forall|r2: int, c2: int|
            #[trigger] between_on_line(fr, fc, tr, tc, r2, c2) ==> sq(b, r2, c2) is None,
        empty_or_enemy(b, tr, tc, (sq(b, fr, fc)->0).color),
{
    let col = (sq(b, fr, fc)->0).color;
    assert(orth_dest(b, fr, fc, tr, tc, col) || diag_dest(b, fr, fc, tr, tc, col));
    assert forall|r2: int, c2: int|
        #[trigger] between_on_line(fr, fc, tr, tc, r2, c2) implies sq(b, r2, c2) is None by {
        if ray_clear_n(b, fr, fc, tr, tc) {
            assert(tc == fc && tr < fr);
            assert(c2 == fc && tr < r2 < fr);
        } else if ray_clear_s(b, fr, fc, tr, tc) {
            assert(c2 == fc && fr < r2 < tr);
        } else if ray_clear_w(b, fr, fc, tr, tc) {
            assert(r2 == fr && tc < c2 < fc);
        } else if ray_clear_e(b, fr, fc, tr, tc) {
            assert(r2 == fr && fc < c2 < tc);
        }
    }
}

proof fn lemma_holds_square_push(v: Seq<(usize, usize)>, x: (usize, usize))
    ensures
        forall|r: int, c: int|
            holds_square(v.push(x), r, c) <==> (holds_square(v, r, c) || (x.0 as int == r
                && x.1 as int == c)),
{
    assert forall|r: int, c: int|
        holds_square(v.push(x), r, c) <==> (holds_square(v, r, c) || (x.0 as int == r
            && x.1 as int == c)) by {
        if holds_square(v, r, c) {
            let i = choose|i: int| 0 <= i < v.len() && v[i].0 as int == r && v[i].1 as int == c;
            assert(v.push(x)[i] == v[i]);
            assert(holds_square(v.push(x), r, c));
        }
        if x.0 as int == r && x.1 as int == c {
            assert(v.push(x)[v.len() as int] == x);
            assert(holds_square(v.push(x), r, c));
        }
        if holds_square(v.push(x), r, c) {
            let i = choose|i: int|
                0 <= i < v.push(x).len() && v.push(x)[i].0 as int == r && v.push(x)[i].1 as int
                    == c;
            if i < v.len() {
                assert(v.push(x)[i] == v[i]);
                assert(holds_square(v, r, c));
            } else {
                assert(v.push(x)[i] == x);
            }
        }
    }
}

/// Membership test: whether the destination list already names (r, c).
pub fn contains_square(v: &Vec<(usize, usize)>, r: usize, c: usize) -> (res: bool)
    ensures
        res == holds_square(v@, r as int, c as int),
{
    let mut i: usize = 0;
    while i < v.len()
        invariant
            i <= v@.len(),
            forall|k: int| 0 <= k < i ==> !(v@[k].0 as int == r as int && v@[k].1 as int == c as int),
        decreases v@.len() - i,
    {
        let (vr, vc) = v[i];
        if vr == r && vc == c {
            return true;
        }
        i = i + 1;
    }
    false
}

/// Add (r, c) to the destination list unless it is already there, so that
/// the list stays a set.
pub fn push_square(v: &mut Vec<(usize, usize)>, r: usize, c: usize)
    ensures
        distinct_squares(old(v)@) ==> distinct_squares(final(v)@),
        forall|a: int, bb: int|
            holds_square(final(v)@, a, bb) <==> (holds_square(old(v)@, a, bb) || (r as int == a
                && c as int == bb)),
{
    if !contains_square(v, r, c) {
        proof {
            lemma_holds_square_push(v@, (r, c));
        }
        let ghost v0 = v@;
        v.push((r, c));
        proof {
            assert forall|i: int, j: int| 0 <= i < j < v@.len() && distinct_squares(v0) implies v@[i]
                != v@[j] by {
                if j == v0.len() {
                    assert(v@[j] == (r, c));
                    assert(!(v0[i].0 as int == r as int && v0[i].1 as int == c as int)) by {
                        if v0[i].0 as int == r as int && v0[i].1 as int == c as int {
                            assert(holds_square(v0, r as int, c as int));
                        }
                    }
                } else {
                    assert(v@[i] == v0[i] && v@[j] == v0[j]);
                }
            }
        }
    }
}

/// Check one square for a piece of color `col` to enter: on the board and
/// empty or enemy-held. The candidate comes as signed coordinates so that
/// off-board arithmetic is harmless.
fn enterable(b: &Board, rr: i32, cc: i32, col: Color) -> (res: bool)
    ensures
        res == (on_board(rr as int, cc as int) && empty_or_enemy(b@, rr as int, cc as int, col)),
{
    if 0 <= rr && rr < 8 && 0 <= cc && cc < 8 {
        match b.at(rr as usize, cc as usize) {
            None => true,
            Some(p) => p.color != col,
        }
    } else {
        false
    }
}

/// Add the candidate square to the list if a piece of color `col` may
/// enter it.
fn push_if_enterable(b: &Board, col: Color, v: &mut Vec<(usize, usize)>, rr: i32, cc: i32)
    ensures
        distinct_squares(old(v)@) ==> distinct_squares(final(v)@),
        forall|a: int, bb: int|
            holds_square(final(v)@, a, bb) <==> (holds_square(old(v)@, a, bb) || (rr as int == a
                && cc as int == bb && on_board(a, bb) && empty_or_enemy(b@, a, bb, col))),
{
    if enterable(b, rr, cc, col) {
        push_square(v, rr as usize, cc as usize);
    }
}

/// Destinations of a knight of color `col` on (fr, fc).
fn knight_dests(b: &Board, fr: usize, fc: usize, col: Color) -> (v: Vec<(usize, usize)>)
    requires
        fr < 8,
        fc < 8,
    ensures
        distinct_squares(v@),
        forall|r: int, c: int|
            holds_square(v@, r, c) <==> (on_board(r, c) && knight_jump(fr as int, fc as int, r, c)
                && empty_or_enemy(b@, r, c, col)),
{
    let mut v: Vec<(usize, usize)> = Vec::new();
    let r = fr as i32;
    let c = fc as i32;
    push_if_enterable(b, col, &mut v, r - 2, c + 1);
    push_if_enterable(b, col, &mut v, r - 2, c - 1);
    push_if_enterable(b, col, &mut v, r + 2, c + 1);
    push_if_enterable(b, col, &mut v, r + 2, c - 1);
    push_if_enterable(b, col, &mut v, r + 1, c - 2);
    push_if_enterable(b, col, &mut v, r - 1, c - 2);
    push_if_enterable(b, col, &mut v, r + 1, c + 2);
    push_if_enterable(b, col, &mut v, r - 1, c + 2);
    v
}

/// Destinations of a king of color `col` on (fr, fc), by geometry and
/// occupancy alone; keeping out of attacked squares is the legality
/// filter's work.
fn king_dests(b: &Board, fr: usize, fc: usize, col: Color) -> (v: Vec<(usize, usize)>)
    requires
        fr < 8,
        fc < 8,
    ensures
        distinct_squares(v@),
        forall|r: int, c: int|
            holds_square(v@, r, c) <==> (on_board(r, c) && king_step(fr as int, fc as int, r, c)
                && empty_or_enemy(b@, r, c, col)),
{
    let mut v: Vec<(usize, usize)> = Vec::new();
    let r = fr as i32;
    let c = fc as i32;
    push_if_enterable(b, col, &mut v, r - 1, c + 1);
    push_if_enterable(b, col, &mut v, r - 1, c - 1);
    push_if_enterable(b, col, &mut v, r + 1, c + 1);
    push_if_enterable(b, col, &mut v, r + 1, c - 1);
    push_if_enterable(b, col, &mut v, r + 1, c);
    push_if_enterable(b, col, &mut v, r - 1, c);
    push_if_enterable(b, col, &mut v, r, c + 1);
    push_if_enterable(b, col, &mut v, r, c - 1);
    v
}

/// Whether square (r, c) is empty.
fn cell_is_empty(b: &Board, r: usize, c: usize) -> (res: bool)
    requires
        r < 8,
        c < 8,
    ensures
        res == (sq(b@, r as int, c as int) is None),
{
    match b.at(r, c) {
        None => true,
        Some(_) => false,
    }
}

/// Destinations of the pawn `p` standing on (fr, fc).
fn pawn_dests(b: &Board, fr: usize, fc: usize, p: Piece) -> (v: Vec<(usize, usize)>)
    requires
        fr < 8,
        fc < 8,
        p.piece == PieceType::Pawn,
    ensures
        distinct_squares(v@),
        forall|r: int, c: int|
            holds_square(v@, r, c) <==> (on_board(r, c) && pawn_dest(
                b@,
                fr as int,
                fc as int,
                r,
                c,
                p,
            )),
{
    let d: i32 = match p.color {
        Color::White => -1,
        Color::Black => 1,
    };
    let r = fr as i32;
    let c = fc as i32;
    let mut v: Vec<(usize, usize)> = Vec::new();
    let r1 = r + d;
    // single forward step, onto an empty square only
    if 0 <= r1 && r1 < 8 && cell_is_empty(b, r1 as usize, fc) {
        push_square(&mut v, r1 as usize, fc);
    }
    // double forward step, only while untouched and over two empty squares
    let r2 = r + 2 * d;
    if 0 <= r1 && r1 < 8 && 0 <= r2 && r2 < 8 && p.untouched && cell_is_empty(b, r1 as usize, fc)
        && cell_is_empty(b, r2 as usize, fc) {
        push_square(&mut v, r2 as usize, fc);
    }
    // diagonal captures, onto enemy-held squares only
    if 0 <= r1 && r1 < 8 && c + 1 < 8 {
        match b.at(r1 as usize, (c + 1) as usize) {
            Some(q) => if q.color != p.color {
                push_square(&mut v, r1 as usize, (c + 1) as usize);
            },
            None => (),
        }
    }
    if 0 <= r1 && r1 < 8 && c - 1 >= 0 {
        match b.at(r1 as usize, (c - 1) as usize) {
            Some(q) => if q.color != p.color {
                push_square(&mut v, r1 as usize, (c - 1) as usize);
            },
            None => (),
        }
    }
    v
}

/// Walk the ray due north of (fr, fc), adding every destination a piece of
/// color `col` may slide to.
fn push_ray_north(b: &Board, fr: usize, fc: usize, col: Color, v: &mut Vec<(usize, usize)>)
    requires
        fr < 8,
        fc < 8,
        distinct_squares(old(v)@),
    ensures
        distinct_squares(final(v)@),
        forall|r: int, c: int|
            #[trigger] holds_square(final(v)@, r, c) <==> (holds_square(old(v)@, r, c) || (on_board(r, c)
                && empty_or_enemy(b@, r, c, col) && ray_clear_n(b@, fr as int, fc as int, r, c))),
{
    let ghost v0 = v@;
    let mut rr: usize = fr;
    let mut blocked: bool = false;
    while rr > 0 && !blocked
        invariant
            fr < 8,
            fc < 8,
            rr <= fr,
            distinct_squares(v@),
            !blocked ==> (forall|j: int| rr <= j < fr ==> sq(b@, j, fc as int) is None),
            !blocked ==> (forall|r: int, c: int|
                #[trigger] holds_square(v@, r, c) <==> (holds_square(v0, r, c) || (c == fc as int
                    && rr <= r < fr))),
            blocked ==> (forall|r: int, c: int|
                #[trigger] holds_square(v@, r, c) <==> (holds_square(v0, r, c) || (on_board(r, c)
                    && empty_or_enemy(b@, r, c, col) && ray_clear_n(
                    b@,
                    fr as int,
                    fc as int,
                    r,
                    c,
                )))),
        decreases rr,
    {
        rr = rr - 1;
        let cell = b.at(rr, fc);
        match cell {
            None => {
                push_square(v, rr, fc);
            },
            Some(p) => {
                if p.color != col {
                    push_square(v, rr, fc);
                }
                blocked = true;
            },
        }
        proof {
            if blocked {
                assert(sq(b@, rr as int, fc as int) is Some);
                assert forall|r: int, c: int|
                    #[trigger] holds_square(v@, r, c) <==> (holds_square(v0, r, c) || (on_board(
                        r,
                        c,
                    ) && empty_or_enemy(b@, r, c, col) && ray_clear_n(
                        b@,
                        fr as int,
                        fc as int,
                        r,
                        c,
                    ))) by {
                    if on_board(r, c) && empty_or_enemy(b@, r, c, col) && ray_clear_n(
                        b@,
                        fr as int,
                        fc as int,
                        r,
                        c,
                    ) {
                        // a destination below the occupied square would need it empty
                        assert(r >= rr as int);
                    }
                }
            }
        }
    }
    proof {
        if !blocked {
            assert forall|r: int, c: int|
                #[trigger] holds_square(v@, r, c) <==> (holds_square(v0, r, c) || (on_board(r, c)
                    && empty_or_enemy(b@, r, c, col) && ray_clear_n(
                    b@,
                    fr as int,
                    fc as int,
                    r,
                    c,
                ))) by {
                if c == fc as int && 0 <= r < fr {
                    assert(sq(b@, r, c) is None);
                }
            }
        }
    }
}

/// Walk the ray due south of (fr, fc).
fn push_ray_south(b: &Board, fr: usize, fc: usize, col: Color, v: &mut Vec<(usize, usize)>)
    requires
        fr < 8,
        fc < 8,
        distinct_squares(old(v)@),
    ensures
        distinct_squares(final(v)@),
        forall|r: int, c: int|
            #[trigger] holds_square(final(v)@, r, c) <==> (holds_square(old(v)@, r, c) || (on_board(r, c)
                && empty_or_enemy(b@, r, c, col) && ray_clear_s(b@, fr as int, fc as int, r, c))),
{
    let ghost v0 = v@;
    let mut rr: usize = fr;
    let mut blocked: bool = false;
    while rr < 7 && !blocked
        invariant
            fr < 8,
            fc < 8,
            fr <= rr <= 7,
            distinct_squares(v@),
            !blocked ==> (forall|j: int| fr < j <= rr ==> sq(b@, j, fc as int) is None),
            !blocked ==> (forall|r: int, c: int|
                #[trigger] holds_square(v@, r, c) <==> (holds_square(v0, r, c) || (c == fc as int
                    && fr < r <= rr))),
            blocked ==> (forall|r: int, c: int|
                #[trigger] holds_square(v@, r, c) <==> (holds_square(v0, r, c) || (on_board(r, c)
                    && empty_or_enemy(b@, r, c, col) && ray_clear_s(
                    b@,
                    fr as int,
                    fc as int,
                    r,
                    c,
                )))),
        decreases 7 - rr,
    {
        rr = rr + 1;
        let cell = b.at(rr, fc);
        match cell {
            None => {
                push_square(v, rr, fc);
            },
            Some(p) => {
                if p.color != col {
                    push_square(v, rr, fc);
                }
                blocked = true;
            },
        }
        proof {
            if blocked {
                assert(sq(b@, rr as int, fc as int) is Some);
                assert forall|r: int, c: int|
                    #[trigger] holds_square(v@, r, c) <==> (holds_square(v0, r, c) || (on_board(
                        r,
                        c,
                    ) && empty_or_enemy(b@, r, c, col) && ray_clear_s(
                        b@,
                        fr as int,
                        fc as int,
                        r,
                        c,
                    ))) by {
                    if on_board(r, c) && empty_or_enemy(b@, r, c, col) && ray_clear_s(
                        b@,
                        fr as int,
                        fc as int,
                        r,
                        c,
                    ) {
                        // a destination beyond the occupied square would need it empty
                        assert(r <= rr as int);
                    }
                }
            }
        }
    }
    proof {
        if !blocked {
            assert forall|r: int, c: int|
                #[trigger] holds_square(v@, r, c) <==> (holds_square(v0, r, c) || (on_board(r, c)
                    && empty_or_enemy(b@, r, c, col) && ray_clear_s(
                    b@,
                    fr as int,
                    fc as int,
                    r,
                    c,
                ))) by {
                if c == fc as int && fr < r < 8 {
                    assert(sq(b@, r, c) is None);
                }
            }
        }
    }
}

/// Walk the ray due west of (fr, fc).
fn push_ray_west(b: &Board, fr: usize, fc: usize, col: Color, v: &mut Vec<(usize, usize)>)
    requires
        fr < 8,
        fc < 8,
        distinct_squares(old(v)@),
    ensures
        distinct_squares(final(v)@),
        forall|r: int, c: int|
            #[trigger] holds_square(final(v)@, r, c) <==> (holds_square(old(v)@, r, c) || (on_board(r, c)
                && empty_or_enemy(b@, r, c, col) && ray_clear_w(b@, fr as int, fc as int, r, c))),
{
    let ghost v0 = v@;
    let mut cc: usize = fc;
    let mut blocked: bool = false;
    while cc > 0 && !blocked
        invariant
            fr < 8,
            fc < 8,
            cc <= fc,
            distinct_squares(v@),
            !blocked ==> (forall|j: int| cc <= j < fc ==> sq(b@, fr as int, j) is None),
            !blocked ==> (forall|r: int, c: int|
                #[trigger] holds_square(v@, r, c) <==> (holds_square(v0, r, c) || (r == fr as int
                    && cc <= c < fc))),
            blocked ==> (forall|r: int, c: int|
                #[trigger] holds_square(v@, r, c) <==> (holds_square(v0, r, c) || (on_board(r, c)
                    && empty_or_enemy(b@, r, c, col) && ray_clear_w(
                    b@,
                    fr as int,
                    fc as int,
                    r,
                    c,
                )))),
        decreases cc,
    {
        cc = cc - 1;
        let cell = b.at(fr, cc);
        match cell {
            None => {
                push_square(v, fr, cc);
            },
            Some(p) => {
                if p.color != col {
                    push_square(v, fr, cc);
                }
                blocked = true;
            },
        }
        proof {
            if blocked {
                assert(sq(b@, fr as int, cc as int) is Some);
                assert forall|r: int, c: int|
                    #[trigger] holds_square(v@, r, c) <==> (holds_square(v0, r, c) || (on_board(
                        r,
                        c,
                    ) && empty_or_enemy(b@, r, c, col) && ray_clear_w(
                        b@,
                        fr as int,
                        fc as int,
                        r,
                        c,
                    ))) by {
                    if on_board(r, c) && empty_or_enemy(b@, r, c, col) && ray_clear_w(
                        b@,
                        fr as int,
                        fc as int,
                        r,
                        c,
                    ) {
                        assert(c >= cc as int);
                    }
                }
            }
        }
    }
    proof {
        if !blocked {
            assert forall|r: int, c: int|
                #[trigger] holds_square(v@, r, c) <==> (holds_square(v0, r, c) || (on_board(r, c)
                    && empty_or_enemy(b@, r, c, col) && ray_clear_w(
                    b@,
                    fr as int,
                    fc as int,
                    r,
                    c,
                ))) by {
                if r == fr as int && 0 <= c < fc {
                    assert(sq(b@, r, c) is None);
                }
            }
        }
    }
}

/// Walk the ray due east of (fr, fc).
fn push_ray_east(b: &Board, fr: usize, fc: usize, col: Color, v: &mut Vec<(usize, usize)>)
    requires
        fr < 8,
        fc < 8,
        distinct_squares(old(v)@),
    ensures
        distinct_squares(final(v)@),
        forall|r: int, c: int|
            #[trigger] holds_square(final(v)@, r, c) <==> (holds_square(old(v)@, r, c) || (on_board(r, c)
                && empty_or_enemy(b@, r, c, col) && ray_clear_e(b@, fr as int, fc as int, r, c))),
{
    let ghost v0 = v@;
    let mut cc: usize = fc;
    let mut blocked: bool = false;
    while cc < 7 && !blocked
        invariant
            fr < 8,
            fc < 8,
            fc <= cc <= 7,
            distinct_squares(v@),
            !blocked ==> (forall|j: int| fc < j <= cc ==> sq(b@, fr as int, j) is None),
            !blocked ==> (forall|r: int, c: int|
                #[trigger] holds_square(v@, r, c) <==> (holds_square(v0, r, c) || (r == fr as int
                    && fc < c <= cc))),
            blocked ==> (forall|r: int, c: int|
                #[trigger] holds_square(v@, r, c) <==> (holds_square(v0, r, c) || (on_board(r, c)
                    && empty_or_enemy(b@, r, c, col) && ray_clear_e(
                    b@,
                    fr as int,
                    fc as int,
                    r,
                    c,
                )))),
        decreases 7 - cc,
    {
        cc = cc + 1;
        let cell = b.at(fr, cc);
        match cell {
            None => {
                push_square(v, fr, cc);
            },
            Some(p) => {
                if p.color != col {
                    push_square(v, fr, cc);
                }
                blocked = true;
            },
        }
        proof {
            if blocked {
                assert(sq(b@, fr as int, cc as int) is Some);
                assert forall|r: int, c: int|
                    #[trigger] holds_square(v@, r, c) <==> (holds_square(v0, r, c) || (on_board(
                        r,
                        c,
                    ) && empty_or_enemy(b@, r, c, col) && ray_clear_e(
                        b@,
                        fr as int,
                        fc as int,
                        r,
                        c,
                    ))) by {
                    if on_board(r, c) && empty_or_enemy(b@, r, c, col) && ray_clear_e(
                        b@,
                        fr as int,
                        fc as int,
                        r,
                        c,
                    ) {
                        assert(c <= cc as int);
                    }
                }
            }
        }
    }
    proof {
        if !blocked {
            assert forall|r: int, c: int|
                #[trigger] holds_square(v@, r, c) <==> (holds_square(v0, r, c) || (on_board(r, c)
                    && empty_or_enemy(b@, r, c, col) && ray_clear_e(
                    b@,
                    fr as int,
                    fc as int,
                    r,
                    c,
                ))) by {
                if r == fr as int && fc < c < 8 {
                    assert(sq(b@, r, c) is None);
                }
            }
        }
    }
}

/// Walk the diagonal ray north-east of (fr, fc).
fn push_ray_ne(b: &Board, fr: usize, fc: usize, col: Color, v: &mut Vec<(usize, usize)>)
    requires
        fr < 8,
        fc < 8,
        distinct_squares(old(v)@),
    ensures
        distinct_squares(final(v)@),
        forall|r: int, c: int|
            #[trigger] holds_square(final(v)@, r, c) <==> (holds_square(old(v)@, r, c) || (on_board(r, c)
                && empty_or_enemy(b@, r, c, col) && ray_clear_ne(b@, fr as int, fc as int, r, c))),
{
    let ghost v0 = v@;
    let mut rr: usize = fr;
    let mut cc: usize = fc;
    let mut blocked: bool = false;
    while rr > 0 && cc < 7 && !blocked
        invariant
            fr < 8,
            fc < 8,
            rr <= fr,
            fc <= cc <= 7,
            fr as int - rr as int == cc as int - fc as int,
            distinct_squares(v@),
            !blocked ==> (forall|r2: int, c2: int|
                rr <= r2 < fr && fr as int - r2 == c2 - fc as int ==> sq(b@, r2, c2) is None),
            !blocked ==> (forall|r: int, c: int|
                #[trigger] holds_square(v@, r, c) <==> (holds_square(v0, r, c) || (fr as int - r
                    == c - fc as int && rr <= r < fr))),
            blocked ==> (forall|r: int, c: int|
                #[trigger] holds_square(v@, r, c) <==> (holds_square(v0, r, c) || (on_board(r, c)
                    && empty_or_enemy(b@, r, c, col) && ray_clear_ne(
                    b@,
                    fr as int,
                    fc as int,
                    r,
                    c,
                )))),
        decreases rr,
    {
        rr = rr - 1;
        cc = cc + 1;
        let cell = b.at(rr, cc);
        match cell {
            None => {
                push_square(v, rr, cc);
            },
            Some(p) => {
                if p.color != col {
                    push_square(v, rr, cc);
                }
                blocked = true;
            },
        }
        proof {
            if blocked {
                assert(sq(b@, rr as int, cc as int) is Some);
                assert forall|r: int, c: int|
                    #[trigger] holds_square(v@, r, c) <==> (holds_square(v0, r, c) || (on_board(
                        r,
                        c,
                    ) && empty_or_enemy(b@, r, c, col) && ray_clear_ne(
                        b@,
                        fr as int,
                        fc as int,
                        r,
                        c,
                    ))) by {
                    if on_board(r, c) && empty_or_enemy(b@, r, c, col) && ray_clear_ne(
                        b@,
                        fr as int,
                        fc as int,
                        r,
                        c,
                    ) {
                        assert(r >= rr as int);
                    }
                }
            }
        }
    }
    proof {
        if !blocked {
            assert forall|r: int, c: int|
                #[trigger] holds_square(v@, r, c) <==> (holds_square(v0, r, c) || (on_board(r, c)
                    && empty_or_enemy(b@, r, c, col) && ray_clear_ne(
                    b@,
                    fr as int,
                    fc as int,
                    r,
                    c,
                ))) by {
                if on_board(r, c) && empty_or_enemy(b@, r, c, col) && ray_clear_ne(
                    b@,
                    fr as int,
                    fc as int,
                    r,
                    c,
                ) {
                    assert(c - fc as int == fr as int - r);
                    assert(r >= rr as int);
                }
                if fr as int - r == c - fc as int && rr <= r < fr {
                    assert(sq(b@, r, c) is None);
                }
            }
        }
    }
}

/// Walk the diagonal ray north-west of (fr, fc).
fn push_ray_nw(b: &Board, fr: usize, fc: usize, col: Color, v: &mut Vec<(usize, usize)>)
    requires
        fr < 8,
        fc < 8,
        distinct_squares(old(v)@),
    ensures
        distinct_squares(final(v)@),
        forall|r: int, c: int|
            #[trigger] holds_square(final(v)@, r, c) <==> (holds_square(old(v)@, r, c) || (on_board(r, c)
                && empty_or_enemy(b@, r, c, col) && ray_clear_nw(b@, fr as int, fc as int, r, c))),
{
    let ghost v0 = v@;
    let mut rr: usize = fr;
    let mut cc: usize = fc;
    let mut blocked: bool = false;
    while rr > 0 && cc > 0 && !blocked
        invariant
            fr < 8,
            fc < 8,
            rr <= fr,
            cc <= fc,
            fr as int - rr as int == fc as int - cc as int,
            distinct_squares(v@),
            !blocked ==> (forall|r2: int, c2: int|
                rr <= r2 < fr && fr as int - r2 == fc as int - c2 ==> sq(b@, r2, c2) is None),
            !blocked ==> (forall|r: int, c: int|
                #[trigger] holds_square(v@, r, c) <==> (holds_square(v0, r, c) || (fr as int - r
                    == fc as int - c && rr <= r < fr))),
            blocked ==> (forall|r: int, c: int|
                #[trigger] holds_square(v@, r, c) <==> (holds_square(v0, r, c) || (on_board(r, c)
                    && empty_or_enemy(b@, r, c, col) && ray_clear_nw(
                    b@,
                    fr as int,
                    fc as int,
                    r,
                    c,
                )))),
        decreases rr,
    {
        rr = rr - 1;
        cc = cc - 1;
        let cell = b.at(rr, cc);
        match cell {
            None => {
                push_square(v, rr, cc);
            },
            Some(p) => {
                if p.color != col {
                    push_square(v, rr, cc);
                }
                blocked = true;
            },
        }
        proof {
            if blocked {
                assert(sq(b@, rr as int, cc as int) is Some);
                assert forall|r: int, c: int|
                    #[trigger] holds_square(v@, r, c) <==> (holds_square(v0, r, c) || (on_board(
                        r,
                        c,
                    ) && empty_or_enemy(b@, r, c, col) && ray_clear_nw(
                        b@,
                        fr as int,
                        fc as int,
                        r,
                        c,
                    ))) by {
                    if on_board(r, c) && empty_or_enemy(b@, r, c, col) && ray_clear_nw(
                        b@,
                        fr as int,
                        fc as int,
                        r,
                        c,
                    ) {
                        assert(r >= rr as int);
                    }
                }
            }
        }
    }
    proof {
        if !blocked {
            assert forall|r: int, c: int|
                #[trigger] holds_square(v@, r, c) <==> (holds_square(v0, r, c) || (on_board(r, c)
                    && empty_or_enemy(b@, r, c, col) && ray_clear_nw(
                    b@,
                    fr as int,
                    fc as int,
                    r,
                    c,
                ))) by {
                if on_board(r, c) && empty_or_enemy(b@, r, c, col) && ray_clear_nw(
                    b@,
                    fr as int,
                    fc as int,
                    r,
                    c,
                ) {
                    assert(fc as int - c == fr as int - r);
                    assert(r >= rr as int);
                }
                if fr as int - r == fc as int - c && rr <= r < fr {
                    assert(sq(b@, r, c) is None);
                }
            }
        }
    }
}

/// Walk the diagonal ray south-east of (fr, fc).
fn push_ray_se(b: &Board, fr: usize, fc: usize, col: Color, v: &mut Vec<(usize, usize)>)
    requires
        fr < 8,
        fc < 8,
        distinct_squares(old(v)@),
    ensures
        distinct_squares(final(v)@),
        forall|r: int, c: int|
            #[trigger] holds_square(final(v)@, r, c) <==> (holds_square(old(v)@, r, c) || (on_board(r, c)
                && empty_or_enemy(b@, r, c, col) && ray_clear_se(b@, fr as int, fc as int, r, c))),
{
    let ghost v0 = v@;
    let mut rr: usize = fr;
    let mut cc: usize = fc;
    let mut blocked: bool = false;
    while rr < 7 && cc < 7 && !blocked
        invariant
            fr < 8,
            fc < 8,
            fr <= rr <= 7,
            fc <= cc <= 7,
            rr as int - fr as int == cc as int - fc as int,
            distinct_squares(v@),
            !blocked ==> (forall|r2: int, c2: int|
                fr < r2 <= rr && r2 - fr as int == c2 - fc as int ==> sq(b@, r2, c2) is None),
            !blocked ==> (forall|r: int, c: int|
                #[trigger] holds_square(v@, r, c) <==> (holds_square(v0, r, c) || (r - fr as int
                    == c - fc as int && fr < r <= rr))),
            blocked ==> (forall|r: int, c: int|
                #[trigger] holds_square(v@, r, c) <==> (holds_square(v0, r, c) || (on_board(r, c)
                    && empty_or_enemy(b@, r, c, col) && ray_clear_se(
                    b@,
                    fr as int,
                    fc as int,
                    r,
                    c,
                )))),
        decreases 7 - rr,
    {
        rr = rr + 1;
        cc = cc + 1;
        let cell = b.at(rr, cc);
        match cell {
            None => {
                push_square(v, rr, cc);
            },
            Some(p) => {
                if p.color != col {
                    push_square(v, rr, cc);
                }
                blocked = true;
            },
        }
        proof {
            if blocked {
                assert(sq(b@, rr as int, cc as int) is Some);
                assert forall|r: int, c: int|
                    #[trigger] holds_square(v@, r, c) <==> (holds_square(v0, r, c) || (on_board(
                        r,
                        c,
                    ) && empty_or_enemy(b@, r, c, col) && ray_clear_se(
                        b@,
                        fr as int,
                        fc as int,
                        r,
                        c,
                    ))) by {
                    if on_board(r, c) && empty_or_enemy(b@, r, c, col) && ray_clear_se(
                        b@,
                        fr as int,
                        fc as int,
                        r,
                        c,
                    ) {
                        assert(r <= rr as int);
                    }
                }
            }
        }
    }
    proof {
        if !blocked {
            assert forall|r: int, c: int|
                #[trigger] holds_square(v@, r, c) <==> (holds_square(v0, r, c) || (on_board(r, c)
                    && empty_or_enemy(b@, r, c, col) && ray_clear_se(
                    b@,
                    fr as int,
                    fc as int,
                    r,
                    c,
                ))) by {
                if on_board(r, c) && empty_or_enemy(b@, r, c, col) && ray_clear_se(
                    b@,
                    fr as int,
                    fc as int,
                    r,
                    c,
                ) {
                    assert(c - fc as int == r - fr as int);
                    assert(r <= rr as int);
                }
                if r - fr as int == c - fc as int && fr < r <= rr {
                    assert(sq(b@, r, c) is None);
                }
            }
        }
    }
}

/// Walk the diagonal ray south-west of (fr, fc).
fn push_ray_sw(b: &Board, fr: usize, fc: usize, col: Color, v: &mut Vec<(usize, usize)>)
    requires
        fr < 8,
        fc < 8,
        distinct_squares(old(v)@),
    ensures
        distinct_squares(final(v)@),
        forall|r: int, c: int|
            #[trigger] holds_square(final(v)@, r, c) <==> (holds_square(old(v)@, r, c) || (on_board(r, c)
                && empty_or_enemy(b@, r, c, col) && ray_clear_sw(b@, fr as int, fc as int, r, c))),
{
    let ghost v0 = v@;
    let mut rr: usize = fr;
    let mut cc: usize = fc;
    let mut blocked: bool = false;
    while rr < 7 && cc > 0 && !blocked
        invariant
            fr < 8,
            fc < 8,
            fr <= rr <= 7,
            cc <= fc,
            rr as int - fr as int == fc as int - cc as int,
            distinct_squares(v@),
            !blocked ==> (forall|r2: int, c2: int|
                fr < r2 <= rr && r2 - fr as int == fc as int - c2 ==> sq(b@, r2, c2) is None),
            !blocked ==> (forall|r: int, c: int|
                #[trigger] holds_square(v@, r, c) <==> (holds_square(v0, r, c) || (r - fr as int
                    == fc as int - c && fr < r <= rr))),
            blocked ==> (forall|r: int, c: int|
                #[trigger] holds_square(v@, r, c) <==> (holds_square(v0, r, c) || (on_board(r, c)
                    && empty_or_enemy(b@, r, c, col) && ray_clear_sw(
                    b@,
                    fr as int,
                    fc as int,
                    r,
                    c,
                )))),
        decreases 7 - rr,
    {
        rr = rr + 1;
        cc = cc - 1;
        let cell = b.at(rr, cc);
        match cell {
            None => {
                push_square(v, rr, cc);
            },
            Some(p) => {
                if p.color != col {
                    push_square(v, rr, cc);
                }
                blocked = true;
            },
        }
        proof {
            if blocked {
                assert(sq(b@, rr as int, cc as int) is Some);
                assert forall|r: int, c: int|
                    #[trigger] holds_square(v@, r, c) <==> (holds_square(v0, r, c) || (on_board(
                        r,
                        c,
                    ) && empty_or_enemy(b@, r, c, col) && ray_clear_sw(
                        b@,
                        fr as int,
                        fc as int,
                        r,
                        c,
                    ))) by {
                    if on_board(r, c) && empty_or_enemy(b@, r, c, col) && ray_clear_sw(
                        b@,
                        fr as int,
                        fc as int,
                        r,
                        c,
                    ) {
                        assert(r <= rr as int);
                    }
                }
            }
        }
    }
    proof {
        if !blocked {
            assert forall|r: int, c: int|
                #[trigger] holds_square(v@, r, c) <==> (holds_square(v0, r, c) || (on_board(r, c)
                    && empty_or_enemy(b@, r, c, col) && ray_clear_sw(
                    b@,
                    fr as int,
                    fc as int,
                    r,
                    c,
                ))) by {
                if on_board(r, c) && empty_or_enemy(b@, r, c, col) && ray_clear_sw(
                    b@,
                    fr as int,
                    fc as int,
                    r,
                    c,
                ) {
                    assert(fc as int - c == r - fr as int);
                    assert(r <= rr as int);
                }
                if r - fr as int == fc as int - c && fr < r <= rr {
                    assert(sq(b@, r, c) is None);
                }
            }
        }
    }
}

/// Add every orthogonal sliding destination of a piece of color `col` on
/// (fr, fc): the rook's geometry.
fn push_orth_rays(b: &Board, fr: usize, fc: usize, col: Color, v: &mut Vec<(usize, usize)>)
    requires
        fr < 8,
        fc < 8,
        distinct_squares(old(v)@),
    ensures
        distinct_squares(final(v)@),
        forall|r: int, c: int|
            holds_square(final(v)@, r, c) <==> (holds_square(old(v)@, r, c) || orth_dest(
                b@,
                fr as int,
                fc as int,
                r,
                c,
                col,
            )),
{
    push_ray_north(b, fr, fc, col, v);
    let ghost v1 = v@;
    push_ray_south(b, fr, fc, col, v);
    let ghost v2 = v@;
    push_ray_west(b, fr, fc, col, v);
    let ghost v3 = v@;
    push_ray_east(b, fr, fc, col, v);
    proof {
        assert forall|r: int, c: int|
            holds_square(v@, r, c) <==> (holds_square(old(v)@, r, c) || orth_dest(
                b@,
                fr as int,
                fc as int,
                r,
                c,
                col,
            )) by {
            assert(holds_square(v1, r, c) <==> (holds_square(old(v)@, r, c) || (on_board(r, c)
                && empty_or_enemy(b@, r, c, col) && ray_clear_n(b@, fr as int, fc as int, r, c))));
            assert(holds_square(v2, r, c) <==> (holds_square(v1, r, c) || (on_board(r, c)
                && empty_or_enemy(b@, r, c, col) && ray_clear_s(b@, fr as int, fc as int, r, c))));
            assert(holds_square(v3, r, c) <==> (holds_square(v2, r, c) || (on_board(r, c)
                && empty_or_enemy(b@, r, c, col) && ray_clear_w(b@, fr as int, fc as int, r, c))));
            assert(holds_square(v@, r, c) <==> (holds_square(v3, r, c) || (on_board(r, c)
                && empty_or_enemy(b@, r, c, col) && ray_clear_e(b@, fr as int, fc as int, r, c))));
        }
    }
}

/// Add every diagonal sliding destination of a piece of color `col` on
/// (fr, fc): the bishop's geometry.
fn push_diag_rays(b: &Board, fr: usize, fc: usize, col: Color, v: &mut Vec<(usize, usize)>)
    requires
        fr < 8,
        fc < 8,
        distinct_squares(old(v)@),
    ensures
        distinct_squares(final(v)@),
        forall|r: int, c: int|
            holds_square(final(v)@, r, c) <==> (holds_square(old(v)@, r, c) || diag_dest(
                b@,
                fr as int,
                fc as int,
                r,
                c,
                col,
            )),
{
    push_ray_ne(b, fr, fc, col, v);
    let ghost v1 = v@;
    push_ray_nw(b, fr, fc, col, v);
    let ghost v2 = v@;
    push_ray_se(b, fr, fc, col, v);
    let ghost v3 = v@;
    push_ray_sw(b, fr, fc, col, v);
    proof {
        assert forall|r: int, c: int|
            holds_square(v@, r, c) <==> (holds_square(old(v)@, r, c) || diag_dest(
                b@,
                fr as int,
                fc as int,
                r,
                c,
                col,
            )) by {
            assert(holds_square(v1, r, c) <==> (holds_square(old(v)@, r, c) || (on_board(r, c)
                && empty_or_enemy(b@, r, c, col) && ray_clear_ne(b@, fr as int, fc as int, r, c))));
            assert(holds_square(v2, r, c) <==> (holds_square(v1, r, c) || (on_board(r, c)
                && empty_or_enemy(b@, r, c, col) && ray_clear_nw(b@, fr as int, fc as int, r, c))));
            assert(holds_square(v3, r, c) <==> (holds_square(v2, r, c) || (on_board(r, c)
                && empty_or_enemy(b@, r, c, col) && ray_clear_se(b@, fr as int, fc as int, r, c))));
            assert(holds_square(v@, r, c) <==> (holds_square(v3, r, c) || (on_board(r, c)
                && empty_or_enemy(b@, r, c, col) && ray_clear_sw(b@, fr as int, fc as int, r, c))));
        }
    }
}

/// The pseudo-legal destinations of the piece on (fr, fc), as an unordered
/// duplicate-free list; empty when the square is empty.
pub fn pseudo_dests(b: &Board, fr: usize, fc: usize) -> (v: Vec<(usize, usize)>)
    requires
        fr < 8,
        fc < 8,
    ensures
        distinct_squares(v@),
        forall|r: int, c: int|
            #[trigger] holds_square(v@, r, c) <==> pseudo_dest(b@, fr as int, fc as int, r, c),
{
    match b.at(fr, fc) {
        None => Vec::new(),
        Some(p) => match p.piece {
            PieceType::Knight => knight_dests(b, fr, fc, p.color),
            PieceType::King => king_dests(b, fr, fc, p.color),
            PieceType::Pawn => pawn_dests(b, fr, fc, p),
            PieceType::Rook => {
                let mut v: Vec<(usize, usize)> = Vec::new();
                push_orth_rays(b, fr, fc, p.color, &mut v);
                v
            },
            PieceType::Bishop => {
                let mut v: Vec<(usize, usize)> = Vec::new();
                push_diag_rays(b, fr, fc, p.color, &mut v);
                v
            },
            PieceType::Queen => {
                let mut v: Vec<(usize, usize)> = Vec::new();
                push_orth_rays(b, fr, fc, p.color, &mut v);
                push_diag_rays(b, fr, fc, p.color, &mut v);
                v
            },
        },
    }
}

/// The squares attacked by the piece on (ar, ac), as an unordered
/// duplicate-free list; empty when the square is empty. A pawn's attacked
/// squares are its two forward diagonals whatever stands on them; every
/// other piece attacks exactly its pseudo-legal destinations.
pub fn attack_dests(b: &Board, ar: usize, ac: usize) -> (v: Vec<(usize, usize)>)
    requires
        ar < 8,
        ac < 8,
    ensures
        distinct_squares(v@),
        forall|r: int, c: int|
            #[trigger] holds_square(v@, r, c) <==> attacks(b@, ar as int, ac as int, r, c),
{
    match b.at(ar, ac) {
        None => Vec::new(),
        Some(p) => match p.piece {
            PieceType::Pawn => {
                let d: i32 = match p.color {
                    Color::White => -1,
                    Color::Black => 1,
                };
                let r1 = ar as i32 + d;
                let c = ac as i32;
                let mut v: Vec<(usize, usize)> = Vec::new();
                if 0 <= r1 && r1 < 8 && c + 1 < 8 {
                    push_square(&mut v, r1 as usize, (c + 1) as usize);
                }
                if 0 <= r1 && r1 < 8 && c - 1 >= 0 {
                    push_square(&mut v, r1 as usize, (c - 1) as usize);
                }
                v
            },
            _ => pseudo_dests(b, ar, ac),
        },
    }
}

} // verus!
