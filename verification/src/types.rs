use vstd::prelude::*;
use vstd::string::StringExecFns;

verus! {

/// One of the two players.
#[derive(Debug, Clone, Copy, PartialEq, Eq, Structural, Hash)]
pub enum Color {
    White,
    Black,
}

/// The opposite color.
pub open spec fn other_color(c: Color) -> Color {
    match c {
        Color::White => Color::Black,
        Color::Black => Color::White,
    }
}

/// The numeric tag a color carries on the wire: 0 for White, 1 for Black.
pub open spec fn color_tag(c: Color) -> i32 {
    match c {
        Color::White => 0i32,
        Color::Black => 1i32,
    }
}

impl Color {
    /// The player who moves after this one.
    pub fn other(&self) -> (r: Color)
        ensures
            r == other_color(*self),
    {
        match self {
            Color::White => Color::Black,
            Color::Black => Color::White,
        }
    }

    /// The color's numeric tag, 0 for White and 1 for Black.
    pub fn tag(&self) -> (r: i32)
        ensures
            r == color_tag(*self),
    {
        match self {
            Color::White => 0i32,
            Color::Black => 1i32,
        }
    }

    /// The characters `describe` returns.
    pub open spec fn describe_spec(&self) -> Seq<char> {
        match self {
            Color::White => "White"@,
            Color::Black => "Black"@,
        }
    }

    /// The color's name, as shown to players.
    pub fn describe(&self) -> (r: String)
        ensures
            r@ == self.describe_spec(),
    {
        match self {
            Color::White => String::from_str("White"),
            Color::Black => String::from_str("Black"),
        }
    }
}

/// The kind of a chess piece.
#[derive(Debug, Clone, Copy, PartialEq, Eq, Structural)]
pub enum PieceName {
    ROOK,
    KNIGHT,
    BISHOP,
    QUEEN,
    KING,
    PAWN,
}

impl PieceName {
    /// The characters `describe` returns.
    pub open spec fn describe_spec(&self) -> Seq<char> {
        match self {
            PieceName::ROOK => "Rook"@,
            PieceName::KNIGHT => "Knight"@,
            PieceName::BISHOP => "Bishop"@,
            PieceName::QUEEN => "Queen"@,
            PieceName::KING => "King"@,
            PieceName::PAWN => "Pawn"@,
        }
    }

    /// The kind's name, as shown to players.
    pub fn describe(&self) -> (r: String)
        ensures
            r@ == self.describe_spec(),
    {
        match self {
            PieceName::ROOK => String::from_str("Rook"),
            PieceName::KNIGHT => String::from_str("Knight"),
            PieceName::BISHOP => String::from_str("Bishop"),
            PieceName::QUEEN => String::from_str("Queen"),
            PieceName::KING => String::from_str("King"),
            PieceName::PAWN => String::from_str("Pawn"),
        }
    }
}

/// A piece on the board: its owner and its kind.
#[derive(Debug, Clone, Copy, PartialEq, Eq, Structural)]
pub struct Piece {
    pub color: Color,
    pub name: PieceName,
}

/// A square of a single chess board. Row 0 is rank 1, column 0 is file a.
#[derive(Debug, Clone, Copy, PartialEq, Eq, Structural)]
pub struct Coordinates {
    pub row: usize,
    pub col: usize,
}

impl Coordinates {
    /// Builds a square from a `(row, col)` pair.
    pub fn new(coords: (usize, usize)) -> (r: Coordinates)
        ensures
            r.row == coords.0,
            r.col == coords.1,
    {
        Coordinates { row: coords.0, col: coords.1 }
    }
}

/// How a single board stands: still open, won by a color, or drawn.
///
/// A win carries the winning color's numeric tag, 0 for White and 1 for
/// Black; the payloads mirror the wire shape of the result message.
#[derive(Debug, Clone, Copy, PartialEq, Eq, Structural)]
pub enum EndResult {
    Undecided(bool),
    Color(i32),
    Draw(bool),
}

/// Failure of the text codec: a malformed FEN or move string, or a square
/// reference that is out of range.
#[derive(Debug, Clone, Copy, PartialEq, Eq, Structural)]
pub enum FenError {
    InvalidFormat,
    InvalidSquare,
}

impl FenError {
    /// The characters `describe` returns.
    pub open spec fn describe_spec(&self) -> Seq<char> {
        match self {
            FenError::InvalidFormat => "InvalidFormat"@,
            FenError::InvalidSquare => "InvalidSquare"@,
        }
    }

    /// The error's name, as reported to callers.
    pub fn describe(&self) -> (r: String)
        ensures
            r@ == self.describe_spec(),
    {
        match self {
            FenError::InvalidFormat => String::from_str("InvalidFormat"),
            FenError::InvalidSquare => String::from_str("InvalidSquare"),
        }
    }
}

/// Failure of a move request against the rules of one board.
#[derive(Debug, Clone, Copy, PartialEq, Eq, Structural)]
pub enum MoveError {
    WrongColor,
    InvalidMove,
    GameOver,
}

impl MoveError {
    /// The characters `describe` returns.
    pub open spec fn describe_spec(&self) -> Seq<char> {
        match self {
            MoveError::WrongColor => "WrongColor"@,
            MoveError::InvalidMove => "InvalidMove"@,
            MoveError::GameOver => "GameOver"@,
        }
    }

    /// The error's name, as reported to callers.
    pub fn describe(&self) -> (r: String)
        ensures
            r@ == self.describe_spec(),
    {
        match self {
            MoveError::WrongColor => String::from_str("WrongColor"),
            MoveError::InvalidMove => String::from_str("InvalidMove"),
            MoveError::GameOver => String::from_str("GameOver"),
        }
    }
}

/// Any failure of one board's codec or rule engine.
#[derive(Debug, Clone, Copy, PartialEq, Eq, Structural)]
pub enum ChessError {
    FenError(FenError),
    MoveError(MoveError),
}

impl ChessError {
    /// The characters `describe` returns.
    pub open spec fn describe_spec(&self) -> Seq<char> {
        match self {
            ChessError::FenError(f) => "FenError("@ + f.describe_spec() + ")"@,
            ChessError::MoveError(m) => "MoveError("@ + m.describe_spec() + ")"@,
        }
    }

    /// The error rendered as its variant and inner name, for example
    /// `MoveError(InvalidMove)`.
    pub fn describe(&self) -> (r: String)
        ensures
            r@ == self.describe_spec(),
    {
        match self {
            ChessError::FenError(f) => {
                let mut s = String::from_str("FenError(");
                s.append(f.describe().as_str());
                s.append(")");
                s
            },
            ChessError::MoveError(m) => {
                let mut s = String::from_str("MoveError(");
                s.append(m.describe().as_str());
                s.append(")");
                s
            },
        }
    }
}

/// Failure of a move addressed to the meta-game: a board index outside the
/// 3-by-3 grid, or a move by the color that is not next.
#[derive(Debug, Clone, Copy, PartialEq, Eq, Structural)]
pub enum TicError {
    InvalidCoords,
    WrongColor,
}

impl TicError {
    /// The characters `describe` returns.
    pub open spec fn describe_spec(&self) -> Seq<char> {
        match self {
            TicError::InvalidCoords => "InvalidCoords"@,
            TicError::WrongColor => "WrongColor"@,
        }
    }

    /// The error's name, as reported to callers.
    pub fn describe(&self) -> (r: String)
        ensures
            r@ == self.describe_spec(),
    {
        match self {
            TicError::InvalidCoords => String::from_str("InvalidCoords"),
            TicError::WrongColor => String::from_str("WrongColor"),
        }
    }
}

/// Any failure of a meta-game call: either the meta-level checks or the
/// single-board engine underneath.
#[derive(Debug, Clone, Copy, PartialEq, Eq, Structural)]
pub enum GameError {
    Tic(TicError),
    Chess(ChessError),
}

impl GameError {
    /// The characters `describe` returns.
    pub open spec fn describe_spec(&self) -> Seq<char> {
        match self {
            GameError::Tic(t) => t.describe_spec(),
            GameError::Chess(c) => c.describe_spec(),
        }
    }

    /// The error rendered as its innermost name.
    pub fn describe(&self) -> (r: String)
        ensures
            r@ == self.describe_spec(),
    {
        match self {
            GameError::Tic(t) => t.describe(),
            GameError::Chess(c) => c.describe(),
        }
    }
}

} // verus!
