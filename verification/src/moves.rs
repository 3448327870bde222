//! The algebraic move grammar: castles, and normal moves written as an
//! optional piece letter, a start square, an optional capture marker, an end
//! square and an optional trailing promotion letter.

use vstd::prelude::*;

use crate::fen::file_val;
use crate::fen::is_file;
use crate::fen::is_rank_char;
use crate::text::digit_val;
use crate::text::has_char;
use crate::text::str_to_chars;
use crate::types::Coordinates;
use crate::types::FenError;
use crate::types::PieceName;

verus! {

/// Whether `c` is one of the five piece letters `R N B K Q`.
pub open spec fn is_piece_letter(c: char) -> bool {
    c == 'R' || c == 'N' || c == 'B' || c == 'K' || c == 'Q'
}

/// The kind a piece letter names.
pub open spec fn piece_letter_kind(c: char) -> PieceName {
    if c == 'R' { PieceName::ROOK }
    else if c == 'N' { PieceName::KNIGHT }
    else if c == 'B' { PieceName::BISHOP }
    else if c == 'K' { PieceName::KING }
    else { PieceName::QUEEN }
}

/// Whether positions `i` and `i + 1` of `s` spell a square.
pub open spec fn sq_at(s: Seq<char>, i: int) -> bool {
    is_file(s[i]) && is_rank_char(s[i + 1])
}

/// The square spelled at positions `i` and `i + 1`.
pub open spec fn square_at(s: Seq<char>, i: int) -> Coordinates {
    Coordinates { row: (digit_val(s[i + 1]) - 1) as usize, col: file_val(s[i]) as usize }
}

/// Whether `s` is the kingside castle word `O-O`.
pub open spec fn is_castle_short(s: Seq<char>) -> bool {
    s.len() == 3 && s[0] == 'O' && s[1] == '-' && s[2] == 'O'
}

/// Whether `s` is the queenside castle word `O-O-O`.
pub open spec fn is_castle_long(s: Seq<char>) -> bool {
    s.len() == 5 && s[0] == 'O' && s[1] == '-' && s[2] == 'O' && s[3] == '-' && s[4] == 'O'
}

/// Whether `s` spells a normal move: a piece letter, a start square, a
/// capture marker and an end square, the letter and marker optional; or a
/// pawn form whose trailing promotion letter may follow the end square.
pub open spec fn normal_grammar_ok(s: Seq<char>) -> bool {
    if s.len() == 4 {
        sq_at(s, 0) && sq_at(s, 2)
    } else if s.len() == 5 {
        (is_piece_letter(s[0]) && sq_at(s, 1) && sq_at(s, 3)) || (sq_at(s, 0) && s[2] == 'x'
            && sq_at(s, 3)) || (sq_at(s, 0) && sq_at(s, 2) && is_piece_letter(s[4]))
    } else if s.len() == 6 {
        (is_piece_letter(s[0]) && sq_at(s, 1) && s[3] == 'x' && sq_at(s, 4)) || (sq_at(s, 0)
            && s[2] == 'x' && sq_at(s, 3) && is_piece_letter(s[5]))
    } else {
        false
    }
}

/// Whether `s` spells any move at all.
pub open spec fn grammar_ok(s: Seq<char>) -> bool {
    is_castle_short(s) || is_castle_long(s) || normal_grammar_ok(s)
}

/// The kind a normal move names: the leading letter's piece, else a pawn.
pub open spec fn move_kind(s: Seq<char>) -> PieceName {
    if is_piece_letter(s[0]) {
        piece_letter_kind(s[0])
    } else {
        PieceName::PAWN
    }
}

/// The start square of a normal move: right after the piece letter, if any.
pub open spec fn move_start(s: Seq<char>) -> Coordinates {
    if is_piece_letter(s[0]) {
        square_at(s, 1)
    } else {
        square_at(s, 0)
    }
}

/// The end square of a normal move: the last square the text spells.
pub open spec fn move_end(s: Seq<char>) -> Coordinates {
    if is_piece_letter(s[0]) {
        if s.len() == 5 {
            square_at(s, 3)
        } else {
            square_at(s, 4)
        }
    } else {
        if s.len() == 4 {
            square_at(s, 2)
        } else if s.len() == 5 {
            if s[2] == 'x' {
                square_at(s, 3)
            } else {
                square_at(s, 2)
            }
        } else {
            square_at(s, 3)
        }
    }
}

/// Whether the move text carries the capture marker.
pub open spec fn move_has_x(s: Seq<char>) -> bool {
    has_char(s, 'x')
}

/// The five piece letters, read into a kind.
pub fn piece_letter_of(c: char) -> (r: Option<PieceName>)
    ensures
        r is Some <==> is_piece_letter(c),
        r is Some ==> r->0 == piece_letter_kind(c),
{
    match c {
        'R' => Some(PieceName::ROOK),
        'N' => Some(PieceName::KNIGHT),
        'B' => Some(PieceName::BISHOP),
        'K' => Some(PieceName::KING),
        'Q' => Some(PieceName::QUEEN),
        _ => None,
    }
}

/// Reads the square at positions `i` and `i + 1`, when the pair spells one.
fn square_at_exec(s: &Vec<char>, i: usize) -> (r: Option<Coordinates>)
    requires
        i + 2 <= s@.len(),
    ensures
        r is Some <==> sq_at(s@, i as int),
        r is Some ==> r->0 == square_at(s@, i as int),
{
    let n = s.len();
    assert(i + 2 <= n);
    let f = match crate::fen::file_of_char(s[i]) {
        Some(f) => f,
        None => {
            return None;
        },
    };
    let c = s[i + 1];
    if c == '1' || c == '2' || c == '3' || c == '4' || c == '5' || c == '6' || c == '7' || c
        == '8' {
        let d = match crate::text::digit_of(c) {
            Some(d) => d,
            None => {
                return None;
            },
        };
        Some(Coordinates { row: (d - 1) as usize, col: f })
    } else {
        None
    }
}

/// Reads a normal move's start square, end square and piece kind, as
/// `move_start`, `move_end` and `move_kind` describe; castle words and any
/// other text that the move grammar refuses are malformed here.
pub fn parse_normal_move(s: &Vec<char>) -> (r: Result<(Coordinates, Coordinates, PieceName), FenError>)
    ensures
        match r {
            Ok(t) => normal_grammar_ok(s@) && t.0 == move_start(s@) && t.1 == move_end(s@) && t.2
                == move_kind(s@),
            Err(e) => !normal_grammar_ok(s@) && e == FenError::InvalidFormat,
        },
{
    let n = s.len();
    if n < 4 || n > 6 {
        return Err(FenError::InvalidFormat);
    }
    let lead = piece_letter_of(s[0]);
    match lead {
        Some(kind) => {
            if n == 4 {
                // a piece form needs five or six characters
                assert(!sq_at(s@, 0));
                return Err(FenError::InvalidFormat);
            }
            let st = match square_at_exec(s, 1) {
                Some(sq) => sq,
                None => {
                    return Err(FenError::InvalidFormat);
                },
            };
            if n == 5 {
                match square_at_exec(s, 3) {
                    Some(en) => Ok((st, en, kind)),
                    None => {
                        assert(!(sq_at(s@, 0) && s@[2] == 'x' && sq_at(s@, 3)));
                        assert(!(sq_at(s@, 0) && sq_at(s@, 2) && is_piece_letter(s@[4])));
                        Err(FenError::InvalidFormat)
                    },
                }
            } else {
                if s[3] != 'x' {
                    assert(!sq_at(s@, 0));
                    return Err(FenError::InvalidFormat);
                }
                match square_at_exec(s, 4) {
                    Some(en) => Ok((st, en, kind)),
                    None => {
                        assert(!sq_at(s@, 0));
                        Err(FenError::InvalidFormat)
                    },
                }
            }
        },
        None => {
            let st = match square_at_exec(s, 0) {
                Some(sq) => sq,
                None => {
                    return Err(FenError::InvalidFormat);
                },
            };
            if n == 4 {
                match square_at_exec(s, 2) {
                    Some(en) => Ok((st, en, PieceName::PAWN)),
                    None => Err(FenError::InvalidFormat),
                }
            } else if n == 5 {
                if s[2] == 'x' {
                    match square_at_exec(s, 3) {
                        Some(en) => Ok((st, en, PieceName::PAWN)),
                        None => {
                            assert(!sq_at(s@, 2)) by {
                                assert(s@[2] == 'x');
                                assert(!is_file('x'));
                            }
                            Err(FenError::InvalidFormat)
                        },
                    }
                } else {
                    match square_at_exec(s, 2) {
                        Some(en) => {
                            match piece_letter_of(s[4]) {
                                Some(_) => Ok((st, en, PieceName::PAWN)),
                                None => {
                                    assert(!(sq_at(s@, 0) && s@[2] == 'x' && sq_at(s@, 3)));
                                    Err(FenError::InvalidFormat)
                                },
                            }
                        },
                        None => {
                            assert(!normal_grammar_ok(s@));
                            Err(FenError::InvalidFormat)
                        },
                    }
                }
            } else {
                if s[2] != 'x' {
                    return Err(FenError::InvalidFormat);
                }
                let en = match square_at_exec(s, 3) {
                    Some(en) => en,
                    None => {
                        return Err(FenError::InvalidFormat);
                    },
                };
                match piece_letter_of(s[5]) {
                    Some(_) => Ok((st, en, PieceName::PAWN)),
                    None => Err(FenError::InvalidFormat),
                }
            }
        },
    }
}

} // verus!

verus! {

impl crate::board::ChessBoard {
    /// Reads a normal move's start square, end square and piece kind from
    /// its text, as `move_start`, `move_end` and `move_kind` describe;
    /// castle words and malformed text are refused.
    pub fn get_data_from_move(move_string: &str) -> (r: Result<
        (Coordinates, Coordinates, PieceName),
        FenError,
    >)
        ensures
            match r {
                Ok(t) => normal_grammar_ok(move_string@) && t.0 == move_start(move_string@) && t.1
                    == move_end(move_string@) && t.2 == move_kind(move_string@),
                Err(e) => !normal_grammar_ok(move_string@) && e == FenError::InvalidFormat,
            },
    {
        let chars = str_to_chars(move_string);
        parse_normal_move(&chars)
    }
}

} // verus!
