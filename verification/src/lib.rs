//! A rules engine for the board game Go.
//!
//! The engine keeps board positions on an N x N grid, applies the capture
//! rule after every stone placement, and organises the positions produced by
//! a sequence of moves -- including branching variations -- into a tree that
//! can be explored by position identifier.

use vstd::prelude::*;

mod board;
mod game;

pub use board::Board;
pub use game::Game;
pub use game::GameEvent;
pub use game::GameTree;

verus! {

/// The colour of a stone. No other values exist.
#[derive(Clone, Copy, PartialEq, Eq, Structural, Debug, Hash)]
pub enum Color {
    Black,
    White,
}

/// The state of a single grid cell: empty, or holding a stone.
///
/// `move_number == 0` marks a handicap / setup stone that carries no move
/// number; real moves are numbered from 1 upwards.
#[derive(Clone, Copy, PartialEq, Eq, Structural, Debug)]
pub enum PointState {
    Empty,
    Filled { move_number: u32, stone_color: Color },
}

/// The conditions under which an engine operation can refuse to act.
/// All three are recoverable and leave the engine's state untouched.
#[derive(Clone, Copy, PartialEq, Eq, Structural, Debug)]
pub enum Error {
    /// A coordinate lies outside the board.
    OutOfRange,
    /// A placement targeted a cell that already holds a stone.
    PointOccupied,
    /// A position identifier is not present in the game tree.
    UnknownPosition,
}

/// A single playable grid point, addressed by zero-based row and column.
#[derive(Clone, Copy, PartialEq, Eq, Structural, Debug, Hash, PartialOrd, Ord)]
pub struct Intersection {
    pub row: u32,
    pub col: u32,
}

impl Intersection {
    pub fn new(row: u32, col: u32) -> (i: Intersection)
        ensures
            i.row == row && i.col == col,
    {
        Intersection { row, col }
    }

    /// Maps 1-based input coordinates to a zero-based intersection.
    /// Validating that both values are positive is the caller's duty.
    pub fn from_sgf(row: u32, col: u32) -> (i: Intersection)
        requires
            row >= 1,
            col >= 1,
        ensures
            i.row == row - 1 && i.col == col - 1,
    {
        Intersection { row: row - 1, col: col - 1 }
    }

    /// The neighbour one row further from the top edge.
    /// Neighbour accessors do no bounds checking; callers bounds-check first.
    pub fn up(&self) -> (i: Intersection)
        requires
            self.row < u32::MAX,
        ensures
            i.row == self.row + 1 && i.col == self.col,
    {
        Intersection { row: self.row + 1, col: self.col }
    }

    /// The neighbour one row nearer to the top edge.
    pub fn down(&self) -> (i: Intersection)
        requires
            self.row >= 1,
        ensures
            i.row == self.row - 1 && i.col == self.col,
    {
        Intersection { row: self.row - 1, col: self.col }
    }

    /// The neighbour one column nearer to the left edge.
    pub fn left(&self) -> (i: Intersection)
        requires
            self.col >= 1,
        ensures
            i.row == self.row && i.col == self.col - 1,
    {
        Intersection { row: self.row, col: self.col - 1 }
    }

    /// The neighbour one column further from the left edge.
    pub fn right(&self) -> (i: Intersection)
        requires
            self.col < u32::MAX,
        ensures
            i.row == self.row && i.col == self.col + 1,
    {
        Intersection { row: self.row, col: self.col + 1 }
    }

    /// The diagram label of this intersection. The column bound is the
    /// machine limit of the letter arithmetic; the row bound leaves room for
    /// the 1-based row number.
    pub fn to_coord(&self) -> (out: String)
        requires
            self.col <= 157,
            self.row < u32::MAX,
        ensures
            out@ == coord_label(self.row as int, self.col as int),
    {
        let mut out = String::new();
        let letter: u8 = if self.col < 8 {
            97 + (self.col as u8)
        } else {
            98 + (self.col as u8)
        };
        push_char(&mut out, letter as char);
        push_decimal(&mut out, self.row + 1);
        proof {
            assert(letter as char == column_letter(self.col as int));
            assert(out@ =~= coord_label(self.row as int, self.col as int));
        }
        out
    }
}

/// One numbered stone placement.
#[derive(Clone, Copy, PartialEq, Eq, Structural, Debug)]
pub struct Move {
    pub move_number: u32,
    pub intersection: Intersection,
    pub color: Color,
}

impl Move {
    pub fn get_number(&self) -> (n: u32)
        ensures
            n == self.move_number,
    {
        self.move_number
    }

    pub fn row(&self) -> (r: u32)
        ensures
            r == self.intersection.row,
    {
        self.intersection.row
    }

    pub fn col(&self) -> (c: u32)
        ensures
            c == self.intersection.col,
    {
        self.intersection.col
    }

    pub fn get_color(&self) -> (c: Color)
        ensures
            c == self.color,
    {
        self.color
    }
}

/// The decimal digit n, as a character.
pub open spec fn digit_char(n: int) -> char
    recommends
        0 <= n <= 9,
{
    if n == 0 {
        '0'
    } else if n == 1 {
        '1'
    } else if n == 2 {
        '2'
    } else if n == 3 {
        '3'
    } else if n == 4 {
        '4'
    } else if n == 5 {
        '5'
    } else if n == 6 {
        '6'
    } else if n == 7 {
        '7'
    } else if n == 8 {
        '8'
    } else {
        '9'
    }
}

/// The decimal spelling of n, most significant digit first.
pub open spec fn dec_digits(n: int) -> Seq<char>
    recommends
        n >= 0,
    decreases n,
{
    if n <= 9 {
        seq![digit_char(n)]
    } else {
        dec_digits(n / 10).push(digit_char(n % 10))
    }
}

/// The column letter of a diagram label: a plain a-to-z mapping would put
/// the ambiguous letter after 'h' at column 8, so columns from 8 on are
/// shifted one letter up.
pub open spec fn column_letter(col: int) -> char
    recommends
        0 <= col <= 157,
{
    if col < 8 {
        (97 + col) as char
    } else {
        (98 + col) as char
    }
}

/// The full diagram label of a cell: column letter, then 1-based row number.
pub open spec fn coord_label(row: int, col: int) -> Seq<char>
    recommends
        0 <= col <= 157,
        row >= 0,
{
    seq![column_letter(col)] + dec_digits(row + 1)
}

/// Relies on String::push: appends the given character to the string.
#[verifier::external_body]
fn push_char(out: &mut String, c: char)
    ensures
        final(out)@ == old(out)@.push(c),
{
    out.push(c);
}

/// The decimal digit n as a character.
fn digit(n: u32) -> (c: char)
    requires
        n <= 9,
    ensures
        c == digit_char(n as int),
{
    match n {
        0 => '0',
        1 => '1',
        2 => '2',
        3 => '3',
        4 => '4',
        5 => '5',
        6 => '6',
        7 => '7',
        8 => '8',
        _ => '9',
    }
}

/// Appends the decimal spelling of n.
fn push_decimal(out: &mut String, n: u32)
    ensures
        final(out)@ == old(out)@ + dec_digits(n as int),
    decreases n,
{
    if n <= 9 {
        push_char(out, digit(n));
        proof {
            assert(out@ =~= old(out)@ + dec_digits(n as int));
        }
    } else {
        push_decimal(out, n / 10);
        push_char(out, digit(n % 10));
        proof {
            assert(out@ =~= old(out)@ + dec_digits(n as int));
        }
    }
}

/// The lower-case English name of a colour, as diagram output spells it.
pub fn color_to_string(color: &Color) -> (s: String)
    ensures
        *color == Color::Black ==> s@ == "black"@,
        *color == Color::White ==> s@ == "white"@,
{
    match color {
        Color::Black => String::from_str("black"),
        Color::White => String::from_str("white"),
    }
}

} // verus!
