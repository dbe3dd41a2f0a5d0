//! Coordinate codec: conversion between algebraic coordinates ("E2") and
//! internal (row, column) indices.
//!
//! Row 0 is rank 8 (black's back rank) and row 7 is rank 1 (white's back
//! rank); column 0 is file 'a'. Parsing is case-insensitive, formatting
//! emits the file letter in upper case.

use vstd::prelude::*;

verus! {

/// Column index named by a file letter, in either case; `None` for any
/// other character.
pub open spec fn file_index(ch: char) -> Option<int> {
    if ch == 'a' || ch == 'A' {
        Some(0int)
    } else if ch == 'b' || ch == 'B' {
        Some(1int)
    } else if ch == 'c' || ch == 'C' {
        Some(2int)
    } else if ch == 'd' || ch == 'D' {
        Some(3int)
    } else if ch == 'e' || ch == 'E' {
        Some(4int)
    } else if ch == 'f' || ch == 'F' {
        Some(5int)
    } else if ch == 'g' || ch == 'G' {
        Some(6int)
    } else if ch == 'h' || ch == 'H' {
        Some(7int)
    } else {
        None
    }
}

/// Row index named by a rank digit; rank 1 is row 7 and rank 8 is row 0.
pub open spec fn rank_row(ch: char) -> Option<int> {
    if ch == '1' {
        Some(7int)
    } else if ch == '2' {
        Some(6int)
    } else if ch == '3' {
        Some(5int)
    } else if ch == '4' {
        Some(4int)
    } else if ch == '5' {
        Some(3int)
    } else if ch == '6' {
        Some(2int)
    } else if ch == '7' {
        Some(1int)
    } else if ch == '8' {
        Some(0int)
    } else {
        None
    }
}

/// Upper-case file letter for a column index in [0, 7].
pub open spec fn file_char(c: int) -> char {
    if c == 0 {
        'A'
    } else if c == 1 {
        'B'
    } else if c == 2 {
        'C'
    } else if c == 3 {
        'D'
    } else if c == 4 {
        'E'
    } else if c == 5 {
        'F'
    } else if c == 6 {
        'G'
    } else {
        'H'
    }
}

/// Rank digit for a row index in [0, 7].
pub open spec fn rank_char(r: int) -> char {
    if r == 0 {
        '8'
    } else if r == 1 {
        '7'
    } else if r == 2 {
        '6'
    } else if r == 3 {
        '5'
    } else if r == 4 {
        '4'
    } else if r == 5 {
        '3'
    } else if r == 6 {
        '2'
    } else {
        '1'
    }
}

/// The algebraic text that names the square (r, c): file letter, then rank
/// digit.
pub open spec fn coord_text(r: int, c: int) -> Seq<char> {
    seq![file_char(c), rank_char(r)]
}

/// What a coordinate text parses to: `Some((row, column))` exactly when the
/// text is one file letter (either case) followed by one rank digit.
pub open spec fn parse_coord_spec(t: Seq<char>) -> Option<(int, int)> {
    if t.len() == 2 {
        match (file_index(t[0]), rank_row(t[1])) {
            (Some(c), Some(r)) => Some((r, c)),
            _ => None,
        }
    } else {
        None
    }
}

/// ASCII upper-casing of the characters a coordinate may hold; any other
/// character is left as it is.
pub open spec fn upper_char(ch: char) -> char {
    if ch == 'a' {
        'A'
    } else if ch == 'b' {
        'B'
    } else if ch == 'c' {
        'C'
    } else if ch == 'd' {
        'D'
    } else if ch == 'e' {
        'E'
    } else if ch == 'f' {
        'F'
    } else if ch == 'g' {
        'G'
    } else if ch == 'h' {
        'H'
    } else {
        ch
    }
}

/// A text, upper-cased character by character.
pub open spec fn upper_text(t: Seq<char>) -> Seq<char> {
    t.map_values(|ch: char| upper_char(ch))
}

/// Round trip, one way: formatting a square and parsing the text gives the
/// square back, for every square on the board.
pub proof fn lemma_parse_format(r: int, c: int)
    requires
        0 <= r < 8,
        0 <= c < 8,
    ensures
        parse_coord_spec(coord_text(r, c)) == Some((r, c)),
{
}

/// Round trip, the other way: parsing a valid coordinate text and formatting
/// the square gives the upper-cased text back.
pub proof fn lemma_format_parse(t: Seq<char>)
    requires
        parse_coord_spec(t) is Some,
    ensures
        ({
            let (r, c) = parse_coord_spec(t)->0;
            coord_text(r, c) =~= upper_text(t)
        }),
{
    let (r, c) = parse_coord_spec(t)->0;
    assert(coord_text(r, c).len() == 2);
    assert(upper_text(t).len() == 2);
    assert(coord_text(r, c)[0] == upper_char(t[0]));
    assert(coord_text(r, c)[1] == upper_char(t[1]));
}

/// Two squares of the board get the same text only if they are the same
/// square.
pub proof fn lemma_coord_text_injective(r1: int, c1: int, r2: int, c2: int)
    requires
        0 <= r1 < 8,
        0 <= c1 < 8,
        0 <= r2 < 8,
        0 <= c2 < 8,
        coord_text(r1, c1) == coord_text(r2, c2),
    ensures
        r1 == r2 && c1 == c2,
{
    assert(coord_text(r1, c1)[0] == coord_text(r2, c2)[0]);
    assert(coord_text(r1, c1)[1] == coord_text(r2, c2)[1]);
}

fn column_of_char(ch: char) -> (res: Option<usize>)
    ensures
        res is Some <==> file_index(ch) is Some,
        res matches Some(c) ==> file_index(ch) == Some(c as int),
{
    match ch {
        'a' | 'A' => Some(0),
        'b' | 'B' => Some(1),
        'c' | 'C' => Some(2),
        'd' | 'D' => Some(3),
        'e' | 'E' => Some(4),
        'f' | 'F' => Some(5),
        'g' | 'G' => Some(6),
        'h' | 'H' => Some(7),
        _ => None,
    }
}

fn row_of_char(ch: char) -> (res: Option<usize>)
    ensures
        res is Some <==> rank_row(ch) is Some,
        res matches Some(r) ==> rank_row(ch) == Some(r as int),
{
    match ch {
        '1' => Some(7),
        '2' => Some(6),
        '3' => Some(5),
        '4' => Some(4),
        '5' => Some(3),
        '6' => Some(2),
        '7' => Some(1),
        '8' => Some(0),
        _ => None,
    }
}

/// Parse an algebraic coordinate into a (row, column) pair; `None` exactly
/// when the text is not one file letter followed by one rank digit.
pub fn parse_coord(s: &str) -> (res: Option<(usize, usize)>)
    ensures
        res is Some <==> parse_coord_spec(s@) is Some,
        res matches Some(rc) ==> parse_coord_spec(s@) == Some((rc.0 as int, rc.1 as int))
            && rc.0 < 8 && rc.1 < 8,
{
    if s.unicode_len() != 2 {
        return None;
    }
    let c0 = s.get_char(0);
    let c1 = s.get_char(1);
    match (column_of_char(c0), row_of_char(c1)) {
        (Some(c), Some(r)) => Some((r, c)),
        _ => None,
    }
}

/// Format a (row, column) pair as an algebraic coordinate, upper-case file
/// letter first.
pub fn format_coord(row: usize, col: usize) -> (res: String)
    requires
        row < 8,
        col < 8,
    ensures
        res@ == coord_text(row as int, col as int),
{
    proof {
        reveal_strlit("A");
        reveal_strlit("B");
        reveal_strlit("C");
        reveal_strlit("D");
        reveal_strlit("E");
        reveal_strlit("F");
        reveal_strlit("G");
        reveal_strlit("H");
        reveal_strlit("1");
        reveal_strlit("2");
        reveal_strlit("3");
        reveal_strlit("4");
        reveal_strlit("5");
        reveal_strlit("6");
        reveal_strlit("7");
        reveal_strlit("8");
    }
    let file: &str = match col {
        0 => "A",
        1 => "B",
        2 => "C",
        3 => "D",
        4 => "E",
        5 => "F",
        6 => "G",
        _ => "H",
    };
    let rank: &str = match row {
        0 => "8",
        1 => "7",
        2 => "6",
        3 => "5",
        4 => "4",
        5 => "3",
        6 => "2",
        _ => "1",
    };
    let res = String::from_str(file).concat(rank);
    proof {
        assert(res@ =~= coord_text(row as int, col as int));
    }
    res
}

} // verus!
