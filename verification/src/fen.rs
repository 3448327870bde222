//! The FEN codec for a single board: squares, piece letters, parsing and
//! formatting of the six-field position text, and the proof that formatting
//! then parsing gives the position back.

use vstd::prelude::*;
use vstd::string::StrSliceExecFns;

use crate::board::BoardModel;
use crate::board::CastlingRights;
use crate::board::ChessBoard;
use crate::board::board_wf;
use crate::board::empty_cells;
use crate::board::end_scan;
use crate::board::has_piece;
use crate::text::all_digits;
use crate::text::chars_to_string;
use crate::text::dec_str;
use crate::text::digit_char;
use crate::text::digit_val;
use crate::text::has_char;
use crate::text::is_digit;
use crate::text::lemma_dec_str_digits;
use crate::text::lemma_parse_dec_str;
use crate::text::lemma_split_no_sep;
use crate::text::lemma_split_sep;
use crate::text::parse_usize_chars;
use crate::text::parse_usize_spec;
use crate::text::split_char;
use crate::text::split_vec;
use crate::text::str_to_chars;
use crate::text::usize_to_chars;
use crate::types::Color;
use crate::types::Coordinates;
use crate::types::EndResult;
use crate::types::FenError;
use crate::types::Piece;
use crate::types::PieceName;

verus! {

/// Whether `c` names a file, `a` through `h`.
pub open spec fn is_file(c: char) -> bool {
    c == 'a' || c == 'b' || c == 'c' || c == 'd' || c == 'e' || c == 'f' || c == 'g' || c == 'h'
}

/// The number of the file `c` names, 0 through 7.
pub open spec fn file_val(c: char) -> int {
    if c == 'a' { 0 }
    else if c == 'b' { 1 }
    else if c == 'c' { 2 }
    else if c == 'd' { 3 }
    else if c == 'e' { 4 }
    else if c == 'f' { 5 }
    else if c == 'g' { 6 }
    else { 7 }
}

/// The letter of file number `i`.
pub open spec fn file_char(i: int) -> char {
    if i == 0 { 'a' }
    else if i == 1 { 'b' }
    else if i == 2 { 'c' }
    else if i == 3 { 'd' }
    else if i == 4 { 'e' }
    else if i == 5 { 'f' }
    else if i == 6 { 'g' }
    else { 'h' }
}

/// Whether `c` names a rank, `1` through `8`.
pub open spec fn is_rank_char(c: char) -> bool {
    c == '1' || c == '2' || c == '3' || c == '4' || c == '5' || c == '6' || c == '7' || c == '8'
}

/// What a two-character square reference denotes: exactly one file letter
/// followed by one rank digit, or nothing.
pub open spec fn square_spec(s: Seq<char>) -> Option<Coordinates> {
    if s.len() == 2 && is_file(s[0]) && is_rank_char(s[1]) {
        Some(Coordinates { row: (digit_val(s[1]) - 1) as usize, col: file_val(s[0]) as usize })
    } else {
        None
    }
}

/// The two-character reference of a square on the board.
pub open spec fn tile_spec(sq: Coordinates) -> Seq<char> {
    seq![file_char(sq.col as int), digit_char(sq.row + 1)]
}

/// The piece a FEN letter denotes: uppercase White, lowercase Black.
pub open spec fn piece_of_char(c: char) -> Option<Piece> {
    if c == 'r' { Some(Piece { color: Color::Black, name: PieceName::ROOK }) }
    else if c == 'n' { Some(Piece { color: Color::Black, name: PieceName::KNIGHT }) }
    else if c == 'b' { Some(Piece { color: Color::Black, name: PieceName::BISHOP }) }
    else if c == 'q' { Some(Piece { color: Color::Black, name: PieceName::QUEEN }) }
    else if c == 'k' { Some(Piece { color: Color::Black, name: PieceName::KING }) }
    else if c == 'p' { Some(Piece { color: Color::Black, name: PieceName::PAWN }) }
    else if c == 'R' { Some(Piece { color: Color::White, name: PieceName::ROOK }) }
    else if c == 'N' { Some(Piece { color: Color::White, name: PieceName::KNIGHT }) }
    else if c == 'B' { Some(Piece { color: Color::White, name: PieceName::BISHOP }) }
    else if c == 'Q' { Some(Piece { color: Color::White, name: PieceName::QUEEN }) }
    else if c == 'K' { Some(Piece { color: Color::White, name: PieceName::KING }) }
    else if c == 'P' { Some(Piece { color: Color::White, name: PieceName::PAWN }) }
    else { None }
}

/// The FEN letter of a piece.
pub open spec fn char_of_piece(p: Piece) -> char {
    match p.color {
        Color::Black => match p.name {
            PieceName::ROOK => 'r',
            PieceName::KNIGHT => 'n',
            PieceName::BISHOP => 'b',
            PieceName::QUEEN => 'q',
            PieceName::KING => 'k',
            PieceName::PAWN => 'p',
        },
        Color::White => match p.name {
            PieceName::ROOK => 'R',
            PieceName::KNIGHT => 'N',
            PieceName::BISHOP => 'B',
            PieceName::QUEEN => 'Q',
            PieceName::KING => 'K',
            PieceName::PAWN => 'P',
        },
    }
}

/// The piece a FEN letter denotes, or nothing.
pub fn piece_of_char_exec(c: char) -> (r: Option<Piece>)
    ensures
        r == piece_of_char(c),
{
    match c {
        'r' => Some(Piece { color: Color::Black, name: PieceName::ROOK }),
        'n' => Some(Piece { color: Color::Black, name: PieceName::KNIGHT }),
        'b' => Some(Piece { color: Color::Black, name: PieceName::BISHOP }),
        'q' => Some(Piece { color: Color::Black, name: PieceName::QUEEN }),
        'k' => Some(Piece { color: Color::Black, name: PieceName::KING }),
        'p' => Some(Piece { color: Color::Black, name: PieceName::PAWN }),
        'R' => Some(Piece { color: Color::White, name: PieceName::ROOK }),
        'N' => Some(Piece { color: Color::White, name: PieceName::KNIGHT }),
        'B' => Some(Piece { color: Color::White, name: PieceName::BISHOP }),
        'Q' => Some(Piece { color: Color::White, name: PieceName::QUEEN }),
        'K' => Some(Piece { color: Color::White, name: PieceName::KING }),
        'P' => Some(Piece { color: Color::White, name: PieceName::PAWN }),
        _ => None,
    }
}

/// The FEN letter of a piece.
pub fn char_of_piece_exec(p: Piece) -> (r: char)
    ensures
        r == char_of_piece(p),
{
    match p.color {
        Color::Black => match p.name {
            PieceName::ROOK => 'r',
            PieceName::KNIGHT => 'n',
            PieceName::BISHOP => 'b',
            PieceName::QUEEN => 'q',
            PieceName::KING => 'k',
            PieceName::PAWN => 'p',
        },
        Color::White => match p.name {
            PieceName::ROOK => 'R',
            PieceName::KNIGHT => 'N',
            PieceName::BISHOP => 'B',
            PieceName::QUEEN => 'Q',
            PieceName::KING => 'K',
            PieceName::PAWN => 'P',
        },
    }
}

/// The file number of a file letter, or nothing.
pub fn file_of_char(c: char) -> (r: Option<usize>)
    ensures
        r is Some <==> is_file(c),
        r is Some ==> r->0 == file_val(c),
{
    match c {
        'a' => Some(0),
        'b' => Some(1),
        'c' => Some(2),
        'd' => Some(3),
        'e' => Some(4),
        'f' => Some(5),
        'g' => Some(6),
        'h' => Some(7),
        _ => None,
    }
}

/// The letter of file number `i`.
pub fn char_of_file(i: usize) -> (r: char)
    requires
        i < 8,
    ensures
        r == file_char(i as int),
{
    match i {
        0 => 'a',
        1 => 'b',
        2 => 'c',
        3 => 'd',
        4 => 'e',
        5 => 'f',
        6 => 'g',
        _ => 'h',
    }
}

/// The square a character pair denotes, as `square_spec` describes.
pub fn square_of_chars(s: &Vec<char>) -> (r: Option<Coordinates>)
    ensures
        r == square_spec(s@),
{
    if s.len() != 2 {
        return None;
    }
    let file = match file_of_char(s[0]) {
        Some(f) => f,
        None => {
            return None;
        },
    };
    let c = s[1];
    if c == '1' || c == '2' || c == '3' || c == '4' || c == '5' || c == '6' || c == '7' || c
        == '8' {
        let d = match crate::text::digit_of(c) {
            Some(d) => d,
            None => {
                return None;
            },
        };
        Some(Coordinates { row: (d - 1) as usize, col: file })
    } else {
        None
    }
}

impl ChessBoard {
    /// Reads a square reference: exactly one lowercase file letter `a`-`h`
    /// followed by one digit `1`-`8`; anything else is refused.
    pub fn get_square(text: &str) -> (r: Result<Coordinates, FenError>)
        ensures
            match r {
                Ok(sq) => square_spec(text@) == Some(sq),
                Err(e) => square_spec(text@) is None && e == FenError::InvalidSquare,
            },
    {
        let chars = str_to_chars(text);
        match square_of_chars(&chars) {
            Some(sq) => Ok(sq),
            None => Err(FenError::InvalidSquare),
        }
    }

    /// Writes a square reference; a square off the board is refused.
    pub fn get_tile(square: Coordinates) -> (r: Result<String, FenError>)
        ensures
            match r {
                Ok(s) => square.row < 8 && square.col < 8 && s@ == tile_spec(square),
                Err(e) => !(square.row < 8 && square.col < 8) && e == FenError::InvalidSquare,
            },
    {
        if square.row > 7 || square.col > 7 {
            return Err(FenError::InvalidSquare);
        }
        let mut v: Vec<char> = Vec::new();
        v.push(char_of_file(square.col));
        v.push(crate::text::char_of_digit(square.row + 1));
        assert(v@ =~= tile_spec(square));
        Ok(chars_to_string(&v))
    }
}

/// A square's reference reads back as the square.
pub proof fn lemma_tile_inverse(sq: Coordinates)
    requires
        sq.row < 8,
        sq.col < 8,
    ensures
        square_spec(tile_spec(sq)) == Some(sq),
{
    let s = tile_spec(sq);
    assert(s.len() == 2);
    assert(s[0] == file_char(sq.col as int));
    assert(s[1] == digit_char(sq.row + 1));
}

/// Whether `c` occurs in `s`, as `has_char` describes.
pub fn contains_char(s: &Vec<char>, c: char) -> (r: bool)
    ensures
        r == has_char(s@, c),
{
    let mut i: usize = 0;
    while i < s.len()
        invariant
            i <= s@.len(),
            forall|k: int| 0 <= k < i ==> s@[k] != c,
        decreases s@.len() - i,
    {
        if s[i] == c {
            return true;
        }
        i = i + 1;
    }
    false
}

} // verus!

verus! {

/// The cells a rank's text denotes: a digit stands for that many empty
/// cells, a piece letter for its piece; any other character spoils the rank.
pub open spec fn rank_decode(s: Seq<char>) -> Option<Seq<Option<Piece>>>
    decreases s.len(),
{
    if s.len() == 0 {
        Some(Seq::<Option<Piece>>::empty())
    } else {
        let rest = rank_decode(s.skip(1));
        if is_digit(s[0]) {
            match rest {
                Some(t) => Some(empty_cells(digit_val(s[0])) + t),
                None => None,
            }
        } else {
            match piece_of_char(s[0]) {
                Some(p) => match rest {
                    Some(t) => Some(seq![Some(p)] + t),
                    None => None,
                },
                None => None,
            }
        }
    }
}

/// Whether a rank's text denotes exactly eight cells.
pub open spec fn rank_ok(s: Seq<char>) -> bool {
    match rank_decode(s) {
        Some(t) => t.len() == 8,
        None => false,
    }
}

/// The grid a placement field denotes: eight `/`-separated ranks, rank 8
/// written first, returned with row 0 as rank 1.
pub open spec fn placement_decode(s: Seq<char>) -> Option<Seq<Seq<Option<Piece>>>> {
    let ranks = split_char(s, '/');
    if ranks.len() != 8 {
        None
    } else if exists|i: int| 0 <= i < 8 && !rank_ok(#[trigger] ranks[i]) {
        None
    } else {
        Some(Seq::new(8, |r: int| rank_decode(ranks[7 - r])->0))
    }
}

/// Whether a field is the single character `-`.
pub open spec fn is_dash(s: Seq<char>) -> bool {
    s.len() == 1 && s[0] == '-'
}

/// Whether a field is a single `w` or `b`.
pub open spec fn is_color_field(s: Seq<char>) -> bool {
    s.len() == 1 && (s[0] == 'w' || s[0] == 'b')
}

/// What parsing a six-field FEN text accepts and denotes. The parsed text
/// itself opens the position history; the outcome is read off the cells.
pub open spec fn parse_fen_spec(s: Seq<char>) -> Result<BoardModel, FenError> {
    let fields = split_char(s, ' ');
    if fields.len() != 6 {
        Err(FenError::InvalidFormat)
    } else if placement_decode(fields[0]) is None {
        Err(FenError::InvalidFormat)
    } else if !is_color_field(fields[1]) {
        Err(FenError::InvalidFormat)
    } else if !is_dash(fields[3]) && square_spec(fields[3]) is None {
        Err(FenError::InvalidSquare)
    } else if parse_usize_spec(fields[4]) is None {
        Err(FenError::InvalidFormat)
    } else if parse_usize_spec(fields[5]) is None {
        Err(FenError::InvalidFormat)
    } else {
        let cells = placement_decode(fields[0])->0;
        Ok(BoardModel {
            cells,
            castling: CastlingRights {
                white_king: has_char(fields[2], 'K'),
                white_queen: has_char(fields[2], 'Q'),
                black_king: has_char(fields[2], 'k'),
                black_queen: has_char(fields[2], 'q'),
            },
            en_passant: if is_dash(fields[3]) {
                None
            } else {
                square_spec(fields[3])
            },
            halfmove: parse_usize_spec(fields[4])->0,
            fullmove: parse_usize_spec(fields[5])->0,
            end: end_scan(cells),
            past: seq![s],
        })
    }
}

/// The pieces joined with `sep` between them.
pub open spec fn join_char(pieces: Seq<Seq<char>>, sep: char) -> Seq<char>
    decreases pieces.len(),
{
    if pieces.len() == 0 {
        Seq::<char>::empty()
    } else if pieces.len() == 1 {
        pieces[0]
    } else {
        pieces[0] + seq![sep] + join_char(pieces.skip(1), sep)
    }
}

/// The text of a rank, with `cnt` empty cells pending before it.
pub open spec fn rank_enc(row: Seq<Option<Piece>>, cnt: int) -> Seq<char>
    decreases row.len(),
{
    let pending = if cnt > 0 { dec_str(cnt) } else { Seq::<char>::empty() };
    if row.len() == 0 {
        pending
    } else {
        match row[0] {
            None => rank_enc(row.skip(1), cnt + 1),
            Some(p) => pending + seq![char_of_piece(p)] + rank_enc(row.skip(1), 0),
        }
    }
}

/// The text of a rank: runs of empty cells as counts, pieces as letters.
pub open spec fn rank_str(row: Seq<Option<Piece>>) -> Seq<char> {
    rank_enc(row, 0)
}

/// The placement field: the ranks from rank 8 down to rank 1, joined by `/`.
pub open spec fn placement_str(cells: Seq<Seq<Option<Piece>>>) -> Seq<char> {
    join_char(Seq::new(cells.len(), |i: int| rank_str(cells[cells.len() - 1 - i])), '/')
}

/// The castling field: the available castlings in `KQkq` order, or `-`.
pub open spec fn castle_str(cr: CastlingRights) -> Seq<char> {
    let s = (if cr.white_king { seq!['K'] } else { Seq::<char>::empty() })
        + (if cr.white_queen { seq!['Q'] } else { Seq::<char>::empty() })
        + (if cr.black_king { seq!['k'] } else { Seq::<char>::empty() })
        + (if cr.black_queen { seq!['q'] } else { Seq::<char>::empty() });
    if s.len() == 0 { seq!['-'] } else { s }
}

/// The en-passant field: the target square, or `-`.
pub open spec fn ep_str(ep: Option<Coordinates>) -> Seq<char> {
    match ep {
        None => seq!['-'],
        Some(sq) => tile_spec(sq),
    }
}

/// The one-letter field of the side to move.
pub open spec fn color_char(c: Color) -> char {
    match c {
        Color::White => 'w',
        Color::Black => 'b',
    }
}

/// The six space-separated fields of a board's FEN text.
pub open spec fn fen_str(m: BoardModel, next: Color) -> Seq<char> {
    join_char(
        seq![
            placement_str(m.cells),
            seq![color_char(next)],
            castle_str(m.castling),
            ep_str(m.en_passant),
            dec_str(m.halfmove as int),
            dec_str(m.fullmove as int),
        ],
        ' ',
    )
}

/// A character occurs in a concatenation exactly when it occurs in a part.
pub proof fn lemma_has_char_concat(a: Seq<char>, b: Seq<char>, c: char)
    ensures
        has_char(a + b, c) <==> has_char(a, c) || has_char(b, c),
{
    if has_char(a + b, c) {
        let i = choose|i: int| 0 <= i < (a + b).len() && (a + b)[i] == c;
        if i < a.len() {
            assert(a[i] == c);
        } else {
            assert(b[i - a.len()] == c);
        }
    }
    if has_char(a, c) {
        let i = choose|i: int| 0 <= i < a.len() && a[i] == c;
        assert((a + b)[i] == c);
    }
    if has_char(b, c) {
        let i = choose|i: int| 0 <= i < b.len() && b[i] == c;
        assert((a + b)[a.len() + i] == c);
    }
}

/// Appending a piece to a join appends the separator and the piece.
pub proof fn lemma_join_push(pieces: Seq<Seq<char>>, x: Seq<char>, sep: char)
    ensures
        join_char(pieces.push(x), sep) == if pieces.len() == 0 {
            x
        } else {
            join_char(pieces, sep) + seq![sep] + x
        },
    decreases pieces.len(),
{
    let p = pieces.push(x);
    if pieces.len() == 0 {
        assert(p.len() == 1);
        assert(p[0] == x);
    } else if pieces.len() == 1 {
        assert(p.len() == 2);
        assert(p[0] == pieces[0]);
        assert(p.skip(1) =~= seq![x]);
        assert(join_char(p.skip(1), sep) == x);
        assert(join_char(pieces, sep) == pieces[0]);
    } else {
        assert(p[0] == pieces[0]);
        assert(p.skip(1) =~= pieces.skip(1).push(x));
        lemma_join_push(pieces.skip(1), x, sep);
        assert(join_char(p.skip(1), sep) == join_char(pieces.skip(1), sep) + seq![sep] + x);
        assert(pieces[0] + seq![sep] + (join_char(pieces.skip(1), sep) + seq![sep] + x) =~= (
        pieces[0] + seq![sep] + join_char(pieces.skip(1), sep)) + seq![sep] + x);
    }
}

/// Splitting a join of separator-free pieces gives the pieces back.
pub proof fn lemma_split_join(pieces: Seq<Seq<char>>, sep: char)
    requires
        pieces.len() >= 1,
        forall|i: int| 0 <= i < pieces.len() ==> !has_char(#[trigger] pieces[i], sep),
    ensures
        split_char(join_char(pieces, sep), sep) == pieces,
    decreases pieces.len(),
{
    if pieces.len() == 1 {
        lemma_split_no_sep(pieces[0], sep);
        assert(seq![pieces[0]] =~= pieces);
    } else {
        assert(forall|i: int| 0 <= i < pieces.skip(1).len() ==> !has_char(
            #[trigger] pieces.skip(1)[i],
            sep,
        )) by {
            assert(forall|i: int| 0 <= i < pieces.skip(1).len() ==> pieces.skip(1)[i] == pieces[i
                + 1]);
        }
        lemma_split_join(pieces.skip(1), sep);
        lemma_split_sep(pieces[0], join_char(pieces.skip(1), sep), sep);
        assert(seq![pieces[0]] + pieces.skip(1) =~= pieces);
    }
}

/// Every character a rank's text holds is a digit or a piece letter.
pub proof fn lemma_rank_enc_chars(row: Seq<Option<Piece>>, cnt: int)
    requires
        cnt >= 0,
    ensures
        forall|i: int| 0 <= i < rank_enc(row, cnt).len() ==> is_digit(#[trigger] rank_enc(
            row,
            cnt,
        )[i]) || piece_of_char(rank_enc(row, cnt)[i]) is Some,
    decreases row.len(),
{
    let pending = if cnt > 0 { dec_str(cnt) } else { Seq::<char>::empty() };
    assert(forall|i: int| 0 <= i < pending.len() ==> is_digit(#[trigger] pending[i])) by {
        if cnt > 0 {
            lemma_dec_str_digits(cnt);
        }
    }
    if row.len() == 0 {
    } else {
        match row[0] {
            None => {
                lemma_rank_enc_chars(row.skip(1), cnt + 1);
            },
            Some(p) => {
                lemma_rank_enc_chars(row.skip(1), 0);
                let s = rank_enc(row, cnt);
                let tail = rank_enc(row.skip(1), 0);
                assert(s == pending + seq![char_of_piece(p)] + tail);
                assert(forall|i: int| 0 <= i < s.len() ==> is_digit(#[trigger] s[i])
                    || piece_of_char(s[i]) is Some) by {
                    assert(forall|i: int| 0 <= i < pending.len() ==> s[i] == pending[i]);
                    assert(s[pending.len() as int] == char_of_piece(p));
                    assert(piece_of_char(char_of_piece(p)) is Some);
                    assert(forall|i: int|
                        pending.len() + 1 <= i < s.len() ==> s[i] == tail[i - pending.len() - 1]);
                }
            },
        }
    }
}

/// A rank's text holds no separator or space.
pub proof fn lemma_rank_enc_clean(row: Seq<Option<Piece>>)
    ensures
        !has_char(rank_str(row), '/'),
        !has_char(rank_str(row), ' '),
    {
    lemma_rank_enc_chars(row, 0);
    let s = rank_str(row);
    assert(forall|i: int| 0 <= i < s.len() ==> s[i] != '/' && s[i] != ' ') by {
        assert(forall|i: int| 0 <= i < s.len() ==> is_digit(#[trigger] s[i]) || piece_of_char(
            s[i],
        ) is Some);
    }
}

/// Decoding a rank's text gives back the pending empties and the cells.
pub proof fn lemma_rank_round(row: Seq<Option<Piece>>, cnt: int)
    requires
        0 <= cnt,
        cnt + row.len() <= 8,
    ensures
        rank_decode(rank_enc(row, cnt)) == Some(empty_cells(cnt) + row),
    decreases row.len(),
{
    let pending = if cnt > 0 { dec_str(cnt) } else { Seq::<char>::empty() };
    if row.len() == 0 {
        if cnt > 0 {
            let s = rank_enc(row, cnt);
            assert(s == dec_str(cnt));
            assert(s =~= seq![digit_char(cnt)]);
            assert(is_digit(s[0]));
            assert(s.skip(1) =~= Seq::<char>::empty());
            assert(rank_decode(s.skip(1)) == Some(Seq::<Option<Piece>>::empty()));
            assert(digit_val(digit_char(cnt)) == cnt);
            assert(empty_cells(cnt) + Seq::<Option<Piece>>::empty() =~= empty_cells(cnt) + row);
        } else {
            assert(rank_enc(row, cnt) == Seq::<char>::empty());
            assert(empty_cells(0) + row =~= Seq::<Option<Piece>>::empty());
        }
    } else {
        match row[0] {
            None => {
                lemma_rank_round(row.skip(1), cnt + 1);
                assert(rank_enc(row, cnt) == rank_enc(row.skip(1), cnt + 1));
                assert(empty_cells(cnt + 1) + row.skip(1) =~= empty_cells(cnt) + row);
            },
            Some(p) => {
                lemma_rank_round(row.skip(1), 0);
                let tail = rank_enc(row.skip(1), 0);
                let s = rank_enc(row, cnt);
                assert(s == pending + seq![char_of_piece(p)] + tail);
                let inner = seq![char_of_piece(p)] + tail;
                assert(rank_decode(inner) == Some(seq![Some(p)] + row.skip(1))) by {
                    assert(inner[0] == char_of_piece(p));
                    assert(!is_digit(inner[0]));
                    assert(piece_of_char(inner[0]) == Some(p));
                    assert(inner.skip(1) =~= tail);
                    assert(rank_decode(tail) == Some(empty_cells(0) + row.skip(1)));
                    assert(empty_cells(0) + row.skip(1) =~= row.skip(1));
                }
                if cnt > 0 {
                    assert(s =~= seq![digit_char(cnt)] + inner) by {
                        assert(pending =~= seq![digit_char(cnt)]);
                    }
                    assert(s[0] == digit_char(cnt));
                    assert(is_digit(s[0]));
                    assert(s.skip(1) =~= inner);
                    assert(digit_val(digit_char(cnt)) == cnt);
                    assert(rank_decode(s) == Some(empty_cells(cnt) + (seq![Some(p)] + row.skip(1))));
                    assert(empty_cells(cnt) + (seq![Some(p)] + row.skip(1)) =~= empty_cells(cnt)
                        + row) by {
                        assert(row =~= seq![Some(p)] + row.skip(1));
                    }
                } else {
                    assert(s =~= inner);
                    assert(empty_cells(0) + row =~= row);
                    assert(seq![Some(p)] + row.skip(1) =~= row);
                }
            },
        }
    }
}

/// Decoding a formatted placement gives back the grid.
pub proof fn lemma_placement_round(cells: Seq<Seq<Option<Piece>>>)
    requires
        cells.len() == 8,
        forall|r: int| 0 <= r < 8 ==> #[trigger] cells[r].len() == 8,
    ensures
        placement_decode(placement_str(cells)) == Some(cells),
{
    let ranks = Seq::new(8, |i: int| rank_str(cells[7 - i]));
    assert(placement_str(cells) == join_char(ranks, '/'));
    assert(forall|i: int| 0 <= i < 8 ==> !has_char(#[trigger] ranks[i], '/')) by {
        assert forall|i: int| 0 <= i < 8 implies !has_char(#[trigger] ranks[i], '/') by {
            lemma_rank_enc_clean(cells[7 - i]);
        }
    }
    lemma_split_join(ranks, '/');
    assert(split_char(placement_str(cells), '/') == ranks);
    assert forall|i: int| 0 <= i < 8 implies rank_ok(#[trigger] ranks[i]) by {
        lemma_rank_round(cells[7 - i], 0);
        assert(empty_cells(0) + cells[7 - i] =~= cells[7 - i]);
        assert(rank_decode(ranks[i]) == Some(cells[7 - i]));
    }
    assert forall|i: int| 0 <= i < 8 implies rank_decode(#[trigger] ranks[i]) == Some(
        cells[7 - i],
    ) by {
        lemma_rank_round(cells[7 - i], 0);
        assert(empty_cells(0) + cells[7 - i] =~= cells[7 - i]);
    }
    assert(Seq::new(8, |r: int| rank_decode(ranks[7 - r])->0) =~= cells);
}

/// The placement text holds no space.
pub proof fn lemma_placement_clean(cells: Seq<Seq<Option<Piece>>>)
    ensures
        !has_char(placement_str(cells), ' '),
{
    let n = cells.len() as int;
    let ranks = Seq::new(cells.len(), |i: int| rank_str(cells[n - 1 - i]));
    assert forall|i: int| 0 <= i < ranks.len() implies !has_char(#[trigger] ranks[i], ' ') by {
        lemma_rank_enc_clean(cells[n - 1 - i]);
    }
    lemma_join_clean(ranks, '/', ' ');
}

/// A join of pieces free of `c`, with a separator other than `c`, is free of
/// `c`.
pub proof fn lemma_join_clean(pieces: Seq<Seq<char>>, sep: char, c: char)
    requires
        sep != c,
        forall|i: int| 0 <= i < pieces.len() ==> !has_char(#[trigger] pieces[i], c),
    ensures
        !has_char(join_char(pieces, sep), c),
    decreases pieces.len(),
{
    if pieces.len() == 0 {
    } else if pieces.len() == 1 {
        assert(!has_char(pieces[0], c));
    } else {
        assert(forall|i: int| 0 <= i < pieces.skip(1).len() ==> pieces.skip(1)[i] == pieces[i + 1]);
        lemma_join_clean(pieces.skip(1), sep, c);
        lemma_has_char_concat(pieces[0] + seq![sep], join_char(pieces.skip(1), sep), c);
        lemma_has_char_concat(pieces[0], seq![sep], c);
        assert(!has_char(seq![sep], c)) by {
            assert(forall|i: int| 0 <= i < 1 ==> seq![sep][i] == sep);
        }
    }
}

} // verus!

verus! {

/// Cells prefixed to a decode result, when it succeeded.
pub open spec fn opt_prepend(
    pre: Seq<Option<Piece>>,
    o: Option<Seq<Option<Piece>>>,
) -> Option<Seq<Option<Piece>>> {
    match o {
        Some(t) => Some(pre + t),
        None => None,
    }
}

/// Reads one rank's text, as `rank_decode` describes.
fn rank_decode_exec(s: &Vec<char>) -> (r: Option<Vec<Option<Piece>>>)
    ensures
        match r {
            Some(v) => rank_decode(s@) == Some(v@),
            None => rank_decode(s@) is None,
        },
{
    let mut acc: Vec<Option<Piece>> = Vec::new();
    let mut j: usize = 0;
    proof {
        assert(s@.skip(0) =~= s@);
        assert(acc@ =~= Seq::<Option<Piece>>::empty());
        assert(rank_decode(s@) == opt_prepend(acc@, rank_decode(s@.skip(0)))) by {
            match rank_decode(s@) {
                Some(t) => {
                    assert(acc@ + t =~= t);
                },
                None => {},
            }
        }
    }
    loop
        invariant
            j <= s@.len(),
            rank_decode(s@) == opt_prepend(acc@, rank_decode(s@.skip(j as int))),
        decreases s@.len() - j,
    {
        if j == s.len() {
            proof {
                assert(s@.skip(j as int) =~= Seq::<char>::empty());
                assert(acc@ + Seq::<Option<Piece>>::empty() =~= acc@);
            }
            return Some(acc);
        }
        let c = s[j];
        let ghost tail = s@.skip(j as int);
        proof {
            assert(tail[0] == c);
            assert(tail.skip(1) =~= s@.skip(j as int + 1));
        }
        match crate::text::digit_of(c) {
            Some(d) => {
                let ghost before = acc@;
                let mut k: u8 = 0;
                while k < d
                    invariant
                        k <= d,
                        acc@ =~= before + empty_cells(k as int),
                    decreases d - k,
                {
                    acc.push(None);
                    k = k + 1;
                    assert(acc@ =~= before + empty_cells(k as int));
                }
                j = j + 1;
                proof {
                    let rest = rank_decode(s@.skip(j as int));
                    assert(rank_decode(tail) == opt_prepend(empty_cells(d as int), rest));
                    match rest {
                        Some(t) => {
                            assert(before + (empty_cells(d as int) + t) =~= (before + empty_cells(
                                d as int,
                            )) + t);
                        },
                        None => {},
                    }
                    assert(rank_decode(s@) == opt_prepend(acc@, rest));
                }
            },
            None => {
                match piece_of_char_exec(c) {
                    Some(p) => {
                        let ghost before = acc@;
                        acc.push(Some(p));
                        j = j + 1;
                        proof {
                            let rest = rank_decode(s@.skip(j as int));
                            assert(rank_decode(tail) == opt_prepend(seq![Some(p)], rest));
                            match rest {
                                Some(t) => {
                                    assert(before + (seq![Some(p)] + t) =~= (before + seq![
                                        Some(p),
                                    ]) + t);
                                    assert(acc@ =~= before + seq![Some(p)]);
                                },
                                None => {},
                            }
                            assert(rank_decode(s@) == opt_prepend(acc@, rest));
                        }
                    },
                    None => {
                        proof {
                            assert(rank_decode(tail) is None);
                        }
                        return None;
                    },
                }
            },
        }
    }
}

/// Whether the grid holds `p` anywhere, as `has_piece` describes.
fn scan_piece(board: &Vec<Vec<Option<Piece>>>, p: Piece) -> (r: bool)
    ensures
        r == has_piece(board@.map_values(|row: Vec<Option<Piece>>| row@), p),
{
    let ghost cells = board@.map_values(|row: Vec<Option<Piece>>| row@);
    let mut ri: usize = 0;
    while ri < board.len()
        invariant
            ri <= board@.len(),
            cells == board@.map_values(|row: Vec<Option<Piece>>| row@),
            forall|a: int, b: int|
                0 <= a < ri && 0 <= b < cells[a].len() ==> #[trigger] cells[a][b] != Some(p),
        decreases board@.len() - ri,
    {
        let row = &board[ri];
        let mut ci: usize = 0;
        while ci < row.len()
            invariant
                ri < board@.len(),
                ci <= row@.len(),
                row@ == cells[ri as int],
                cells == board@.map_values(|row: Vec<Option<Piece>>| row@),
                forall|a: int, b: int|
                    0 <= a < ri && 0 <= b < cells[a].len() ==> #[trigger] cells[a][b] != Some(p),
                forall|b: int| 0 <= b < ci ==> #[trigger] cells[ri as int][b] != Some(p),
            decreases row@.len() - ci,
        {
            let matched = match &row[ci] {
                Some(q) => q.color == p.color && q.name == p.name,
                None => false,
            };
            if matched {
                assert(cells[ri as int][ci as int] == Some(p));
                return true;
            }
            ci = ci + 1;
        }
        ri = ri + 1;
    }
    proof {
        assert(!has_piece(cells, p)) by {
            if has_piece(cells, p) {
                let (a, b) = choose|a: int, b: int|
                    0 <= a < cells.len() && 0 <= b < cells[a].len() && cells[a][b] == Some(p);
                assert(cells[a][b] != Some(p));
            }
        }
    }
    false
}

impl ChessBoard {
    /// Reads a six-field FEN text into a board, as `parse_fen_spec` describes:
    /// the placement, active color, castling, en-passant and clock fields are
    /// checked in that order, the outcome is read off the cells, and the text
    /// itself opens the position history.
    #[verifier::loop_isolation(false)]
    pub fn parse_fen(fen: &str) -> (r: Result<ChessBoard, FenError>)
        ensures
            match r {
                Ok(b) => parse_fen_spec(fen@) == Ok::<BoardModel, FenError>(b@) && board_wf(b@),
                Err(e) => parse_fen_spec(fen@) == Err::<BoardModel, FenError>(e),
            },
    {
        let chars = str_to_chars(fen);
        let fields = split_vec(&chars, ' ');
        let ghost sfields = split_char(fen@, ' ');
        if fields.len() != 6 {
            return Err(FenError::InvalidFormat);
        }
        let f0 = &fields[0];
        let ranks = split_vec(f0, '/');
        let ghost sranks = split_char(sfields[0], '/');
        assert(f0@ == sfields[0]);
        if ranks.len() != 8 {
            assert(placement_decode(sfields[0]) is None);
            return Err(FenError::InvalidFormat);
        }
        let mut decoded: Vec<Vec<Option<Piece>>> = Vec::new();
        let mut i: usize = 0;
        while i < 8
            invariant
                i <= 8,
                decoded@.len() == i,
                sranks == split_char(sfields[0], '/'),
                sranks.len() == 8,
                ranks@.len() == 8,
                forall|k: int| #![auto] 0 <= k < 8 ==> ranks@[k]@ == sranks[k],
                forall|k: int| #![auto] 0 <= k < i ==> rank_ok(sranks[k]) && decoded@[k]@
                    == rank_decode(sranks[k])->0,
            decreases 8 - i,
        {
            let rank = &ranks[i];
            match rank_decode_exec(rank) {
                Some(v) => {
                    if v.len() != 8 {
                        proof {
                            assert(!rank_ok(split_char(sfields[0], '/')[i as int]));
                            assert(placement_decode(sfields[0]) is None);
                            assert(parse_fen_spec(fen@) == Err::<BoardModel, FenError>(
                                FenError::InvalidFormat,
                            ));
                        }
                        return Err(FenError::InvalidFormat);
                    }
                    decoded.push(v);
                },
                None => {
                    proof {
                        assert(!rank_ok(split_char(sfields[0], '/')[i as int]));
                        assert(placement_decode(sfields[0]) is None);
                        assert(parse_fen_spec(fen@) == Err::<BoardModel, FenError>(
                            FenError::InvalidFormat,
                        ));
                    }
                    return Err(FenError::InvalidFormat);
                },
            }
            i = i + 1;
        }
        assert(forall|k: int| 0 <= k < 8 ==> rank_ok(#[trigger] sranks[k]));
        let ghost scells = Seq::new(8, |r: int| rank_decode(sranks[7 - r])->0);
        assert(placement_decode(sfields[0]) == Some(scells));
        let mut board: Vec<Vec<Option<Piece>>> = Vec::new();
        let mut r: usize = 0;
        while r < 8
            invariant
                r <= 8,
                board@.len() == r,
                decoded@.len() == 8 - r,
                forall|k: int| #![auto] 0 <= k < 8 - r ==> decoded@[k]@ == rank_decode(
                    sranks[k],
                )->0,
                forall|k: int| #![auto] 0 <= k < r ==> board@[k]@ == rank_decode(
                    sranks[7 - k],
                )->0,
                forall|k: int| 0 <= k < 8 ==> rank_ok(#[trigger] sranks[k]),
            decreases 8 - r,
        {
            let row = decoded.pop().unwrap();
            board.push(row);
            r = r + 1;
        }
        assert(board@.map_values(|row: Vec<Option<Piece>>| row@) =~= scells);
        let f1 = &fields[1];
        assert(f1@ == sfields[1]);
        let color_ok = f1.len() == 1 && (f1[0] == 'w' || f1[0] == 'b');
        if !color_ok {
            assert(!is_color_field(sfields[1]));
            return Err(FenError::InvalidFormat);
        }
        let f2 = &fields[2];
        assert(f2@ == sfields[2]);
        let castling = CastlingRights {
            white_king: contains_char(f2, 'K'),
            white_queen: contains_char(f2, 'Q'),
            black_king: contains_char(f2, 'k'),
            black_queen: contains_char(f2, 'q'),
        };
        let f3 = &fields[3];
        assert(f3@ == sfields[3]);
        let dash = f3.len() == 1 && f3[0] == '-';
        let en_passant: Option<Coordinates> = if dash {
            None
        } else {
            match square_of_chars(f3) {
                Some(sq) => Some(sq),
                None => {
                    return Err(FenError::InvalidSquare);
                },
            }
        };
        let f4 = &fields[4];
        assert(f4@ == sfields[4]);
        let halfmove = match parse_usize_chars(f4) {
            Some(n) => n,
            None => {
                return Err(FenError::InvalidFormat);
            },
        };
        let f5 = &fields[5];
        assert(f5@ == sfields[5]);
        let fullmove = match parse_usize_chars(f5) {
            Some(n) => n,
            None => {
                return Err(FenError::InvalidFormat);
            },
        };
        let black_king_present = scan_piece(&board, Piece { color: Color::Black, name: PieceName::KING });
        let white_king_present = scan_piece(&board, Piece { color: Color::White, name: PieceName::KING });
        let end = if !black_king_present {
            EndResult::Color(0)
        } else if !white_king_present {
            EndResult::Color(1)
        } else {
            EndResult::Undecided(true)
        };
        let mut past: Vec<String> = Vec::new();
        past.push(fen.to_owned());
        let b = ChessBoard { board, castling, en_passant, halfmove, fullmove, end, past };
        proof {
            assert(b@.cells == scells);
            assert(b@.past =~= seq![fen@]);
            assert(end == end_scan(scells));
            assert(parse_fen_spec(fen@) == Ok::<BoardModel, FenError>(b@)) by {
                assert(parse_fen_spec(fen@) is Ok);
                let m = parse_fen_spec(fen@)->Ok_0;
                assert(m.cells == b@.cells);
                assert(m.castling == b@.castling);
                assert(m.en_passant == b@.en_passant);
                assert(m.halfmove == b@.halfmove);
                assert(m.fullmove == b@.fullmove);
                assert(m.end == b@.end);
                assert(m.past =~= b@.past);
                assert(m =~= b@);
            }
            assert(board_wf(b@)) by {
                assert(forall|k: int| #![auto] 0 <= k < 8 ==> b@.cells[k].len() == 8);
                match en_passant {
                    Some(sq) => {
                        assert(sq.row < 8 && sq.col < 8);
                    },
                    None => {},
                }
            }
        }
        Ok(b)
    }
}

} // verus!


verus! {

/// A join of six pieces, written out.
pub proof fn lemma_join6(
    f0: Seq<char>,
    f1: Seq<char>,
    f2: Seq<char>,
    f3: Seq<char>,
    f4: Seq<char>,
    f5: Seq<char>,
    sep: char,
)
    ensures
        join_char(seq![f0, f1, f2, f3, f4, f5], sep) == f0 + seq![sep] + f1 + seq![sep] + f2
            + seq![sep] + f3 + seq![sep] + f4 + seq![sep] + f5,
{
    assert(seq![f0, f1, f2, f3, f4, f5].skip(1) =~= seq![f1, f2, f3, f4, f5]);
    assert(seq![f1, f2, f3, f4, f5].skip(1) =~= seq![f2, f3, f4, f5]);
    assert(seq![f2, f3, f4, f5].skip(1) =~= seq![f3, f4, f5]);
    assert(seq![f3, f4, f5].skip(1) =~= seq![f4, f5]);
    assert(seq![f4, f5].skip(1) =~= seq![f5]);
    assert(join_char(seq![f5], sep) == f5);
    assert(join_char(seq![f4, f5], sep) == f4 + seq![sep] + f5);
    assert(join_char(seq![f3, f4, f5], sep) == f3 + seq![sep] + (f4 + seq![sep] + f5));
    assert(join_char(seq![f2, f3, f4, f5], sep) == f2 + seq![sep] + (f3 + seq![sep] + (f4
        + seq![sep] + f5)));
    assert(join_char(seq![f1, f2, f3, f4, f5], sep) == f1 + seq![sep] + (f2 + seq![sep] + (f3
        + seq![sep] + (f4 + seq![sep] + f5))));
    assert(join_char(seq![f0, f1, f2, f3, f4, f5], sep) == f0 + seq![sep] + (f1 + seq![sep] + (f2
        + seq![sep] + (f3 + seq![sep] + (f4 + seq![sep] + f5)))));
    assert(f0 + seq![sep] + (f1 + seq![sep] + (f2 + seq![sep] + (f3 + seq![sep] + (f4 + seq![sep]
        + f5)))) =~= f0 + seq![sep] + f1 + seq![sep] + f2 + seq![sep] + f3 + seq![sep] + f4
        + seq![sep] + f5);
}

/// Whether the recorded en-passant target, if any, lies on the board.
pub open spec fn ep_in_range(m: BoardModel) -> bool {
    match m.en_passant {
        Some(sq) => sq.row < 8 && sq.col < 8,
        None => true,
    }
}

/// Appends one rank's text to `out`: runs of empty cells as counts, pieces
/// as letters.
#[verifier::loop_isolation(false)]
fn emit_rank(row: &Vec<Option<Piece>>, out: &mut Vec<char>)
    ensures
        final(out)@ == old(out)@ + rank_str(row@),
{
    let ghost base = out@;
    let ghost this_rank = rank_str(row@);
    let mut cnt: usize = 0;
    let mut j: usize = 0;
    proof {
        assert(row@.skip(0) =~= row@);
        assert(base + rank_enc(row@.skip(0), 0) == base + this_rank);
    }
    while j < row.len()
        invariant
            j <= row@.len(),
            cnt <= j,
            out@ + rank_enc(row@.skip(j as int), cnt as int) == base + this_rank,
        decreases row@.len() - j,
    {
        let ghost tail = row@.skip(j as int);
        proof {
            assert(tail[0] == row@[j as int]);
            assert(tail.skip(1) =~= row@.skip(j as int + 1));
        }
        match row[j] {
            None => {
                cnt = cnt + 1;
                j = j + 1;
                proof {
                    assert(rank_enc(tail, cnt as int - 1) == rank_enc(
                        row@.skip(j as int),
                        cnt as int,
                    ));
                }
            },
            Some(p) => {
                let ghost before = out@;
                let ghost oldcnt = cnt as int;
                if cnt > 0 {
                    let mut digits = usize_to_chars(cnt);
                    out.append(&mut digits);
                }
                out.push(char_of_piece_exec(p));
                cnt = 0;
                j = j + 1;
                proof {
                    let pending = if oldcnt > 0 { dec_str(oldcnt) } else { Seq::<char>::empty() };
                    assert(out@ =~= before + pending + seq![char_of_piece(p)]);
                    assert(rank_enc(tail, oldcnt) == pending + seq![char_of_piece(p)] + rank_enc(
                        row@.skip(j as int),
                        0,
                    ));
                    assert(out@ + rank_enc(row@.skip(j as int), 0) =~= before + (pending + seq![
                        char_of_piece(p),
                    ] + rank_enc(row@.skip(j as int), 0)));
                }
            },
        }
    }
    if cnt > 0 {
        let mut digits = usize_to_chars(cnt);
        out.append(&mut digits);
    }
    proof {
        assert(row@.skip(row@.len() as int) =~= Seq::<Option<Piece>>::empty());
        assert(out@ =~= base + this_rank);
    }
}

/// Appends the castling field: available castlings in `KQkq` order, or `-`.
fn emit_castle(cr: &CastlingRights, out: &mut Vec<char>)
    ensures
        final(out)@ == old(out)@ + castle_str(*cr),
{
    let ghost base = out@;
    let mut any_castle = false;
    if cr.white_king {
        out.push('K');
        any_castle = true;
    }
    if cr.white_queen {
        out.push('Q');
        any_castle = true;
    }
    if cr.black_king {
        out.push('k');
        any_castle = true;
    }
    if cr.black_queen {
        out.push('q');
        any_castle = true;
    }
    if !any_castle {
        out.push('-');
    }
    proof {
        let s = (if cr.white_king { seq!['K'] } else { Seq::<char>::empty() }) + (if cr
            .white_queen {
            seq!['Q']
        } else {
            Seq::<char>::empty()
        }) + (if cr.black_king { seq!['k'] } else { Seq::<char>::empty() }) + (if cr.black_queen {
            seq!['q']
        } else {
            Seq::<char>::empty()
        });
        if s.len() == 0 {
            assert(castle_str(*cr) == seq!['-']);
            assert(out@ =~= base + castle_str(*cr));
        } else {
            assert(castle_str(*cr) == s);
            assert(out@ =~= base + castle_str(*cr));
        }
    }
}

/// Appends the placement field: the ranks from rank 8 down to rank 1,
/// joined by `/`.
#[verifier::loop_isolation(false)]
fn emit_placement(board: &Vec<Vec<Option<Piece>>>, out: &mut Vec<char>)
    ensures
        final(out)@ == old(out)@ + placement_str(
            board@.map_values(|row: Vec<Option<Piece>>| row@),
        ),
{
    let ghost cells = board@.map_values(|row: Vec<Option<Piece>>| row@);
    let ghost base = out@;
    let n = board.len();
    let ghost rankseq = Seq::new(cells.len(), |i: int| rank_str(cells[cells.len() - 1 - i]));
    let mut i: usize = 0;
    proof {
        assert(rankseq.take(0) =~= Seq::<Seq<char>>::empty());
        assert(out@ =~= base + join_char(rankseq.take(0), '/'));
    }
    while i < n
        invariant
            i <= n,
            out@ == base + join_char(rankseq.take(i as int), '/'),
        decreases n - i,
    {
        let ghost joined_prev = join_char(rankseq.take(i as int), '/');
        if i > 0 {
            out.push('/');
        }
        let row = &board[n - 1 - i];
        assert(row@ == cells[n - 1 - i as int]);
        let ghost this_rank = rank_str(cells[n - 1 - i as int]);
        emit_rank(row, out);
        i = i + 1;
        proof {
            assert(rankseq.take(i as int) =~= rankseq.take(i as int - 1).push(this_rank));
            lemma_join_push(rankseq.take(i as int - 1), this_rank, '/');
            if i == 1 {
                assert(joined_prev =~= Seq::<char>::empty());
                assert(out@ =~= base + join_char(rankseq.take(i as int), '/'));
            } else {
                assert(out@ =~= base + (joined_prev + seq!['/'] + this_rank));
                assert(out@ =~= base + join_char(rankseq.take(i as int), '/'));
            }
        }
    }
    proof {
        assert(rankseq.take(n as int) =~= rankseq);
    }
}

/// Appends the last four FEN fields with their leading spaces: castling,
/// en-passant target and the two clocks.
fn emit_suffix(
    cr: &CastlingRights,
    ep: Option<Coordinates>,
    halfmove: usize,
    fullmove: usize,
    out: &mut Vec<char>,
)
    requires
        match ep {
            Some(sq) => sq.row < 8 && sq.col < 8,
            None => true,
        },
    ensures
        final(out)@ == old(out)@ + seq![' '] + castle_str(*cr) + seq![' '] + ep_str(ep) + seq![' ']
            + dec_str(halfmove as int) + seq![' '] + dec_str(fullmove as int),
{
    let ghost base = out@;
    let ghost f2 = castle_str(*cr);
    let ghost f3 = ep_str(ep);
    let ghost f4 = dec_str(halfmove as int);
    let ghost f5 = dec_str(fullmove as int);
    out.push(' ');
    emit_castle(cr, out);
    let ghost after2 = out@;
    assert(after2 =~= base + seq![' '] + f2);
    out.push(' ');
    match ep {
        Some(sq) => {
            out.push(char_of_file(sq.col));
            out.push(crate::text::char_of_digit(sq.row + 1));
        },
        None => {
            out.push('-');
        },
    }
    let ghost after3 = out@;
    assert(after3 =~= after2 + seq![' '] + f3);
    out.push(' ');
    let mut digits = usize_to_chars(halfmove);
    out.append(&mut digits);
    let ghost after4 = out@;
    assert(after4 =~= after3 + seq![' '] + f4);
    out.push(' ');
    let mut digits2 = usize_to_chars(fullmove);
    out.append(&mut digits2);
    assert(out@ =~= after4 + seq![' '] + f5);
}

impl ChessBoard {
    /// Writes the board as six-field FEN text, as `fen_str` describes; only
    /// an en-passant target off the board is refused.
    pub fn to_fen(&self, next: Color) -> (r: Result<String, FenError>)
        ensures
            match r {
                Ok(s) => ep_in_range(self@) && s@ == fen_str(self@, next),
                Err(e) => !ep_in_range(self@) && e == FenError::InvalidSquare,
            },
    {
        match self.en_passant {
            Some(sq) => {
                if sq.row > 7 || sq.col > 7 {
                    return Err(FenError::InvalidSquare);
                }
            },
            None => {},
        }
        let ghost f0 = placement_str(self@.cells);
        let ghost f1 = seq![color_char(next)];
        let ghost f2 = castle_str(self@.castling);
        let ghost f3 = ep_str(self@.en_passant);
        let ghost f4 = dec_str(self@.halfmove as int);
        let ghost f5 = dec_str(self@.fullmove as int);
        let mut out: Vec<char> = Vec::new();
        emit_placement(&self.board, &mut out);
        assert(out@ =~= f0);
        out.push(' ');
        match next {
            Color::White => out.push('w'),
            Color::Black => out.push('b'),
        }
        let ghost after1 = out@;
        assert(after1 =~= f0 + seq![' '] + f1);
        emit_suffix(&self.castling, self.en_passant, self.halfmove, self.fullmove, &mut out);
        proof {
            lemma_join6(f0, f1, f2, f3, f4, f5, ' ');
            assert(out@ == after1 + seq![' '] + f2 + seq![' '] + f3 + seq![' '] + f4 + seq![' ']
                + f5);
            assert(out@ == fen_str(self@, next));
        }
        Ok(chars_to_string(&out))
    }
}

} // verus!

verus! {

/// The castling field holds no space, and holds each castling letter exactly
/// when that castling is available.
pub proof fn lemma_castle_fields(cr: CastlingRights)
    ensures
        !has_char(castle_str(cr), ' '),
        has_char(castle_str(cr), 'K') == cr.white_king,
        has_char(castle_str(cr), 'Q') == cr.white_queen,
        has_char(castle_str(cr), 'k') == cr.black_king,
        has_char(castle_str(cr), 'q') == cr.black_queen,
{
    let a = if cr.white_king { seq!['K'] } else { Seq::<char>::empty() };
    let b = if cr.white_queen { seq!['Q'] } else { Seq::<char>::empty() };
    let c = if cr.black_king { seq!['k'] } else { Seq::<char>::empty() };
    let d = if cr.black_queen { seq!['q'] } else { Seq::<char>::empty() };
    let s = a + b + c + d;
    lemma_has_char_concat(a, b, 'K');
    lemma_has_char_concat(a + b, c, 'K');
    lemma_has_char_concat(a + b + c, d, 'K');
    lemma_has_char_concat(a, b, 'Q');
    lemma_has_char_concat(a + b, c, 'Q');
    lemma_has_char_concat(a + b + c, d, 'Q');
    lemma_has_char_concat(a, b, 'k');
    lemma_has_char_concat(a + b, c, 'k');
    lemma_has_char_concat(a + b + c, d, 'k');
    lemma_has_char_concat(a, b, 'q');
    lemma_has_char_concat(a + b, c, 'q');
    lemma_has_char_concat(a + b + c, d, 'q');
    lemma_has_char_concat(a, b, ' ');
    lemma_has_char_concat(a + b, c, ' ');
    lemma_has_char_concat(a + b + c, d, ' ');
    if cr.white_king {
        assert(a[0] == 'K');
    }
    if cr.white_queen {
        assert(b[0] == 'Q');
    }
    if cr.black_king {
        assert(c[0] == 'k');
    }
    if cr.black_queen {
        assert(d[0] == 'q');
    }
    if s.len() == 0 {
        assert(castle_str(cr) == seq!['-']);
        assert(a.len() == 0 && b.len() == 0 && c.len() == 0 && d.len() == 0);
        assert(!cr.white_king && !cr.white_queen && !cr.black_king && !cr.black_queen);
        assert(forall|i: int| 0 <= i < 1 ==> seq!['-'][i] == '-');
    } else {
        assert(castle_str(cr) == s);
    }
}

/// Formatting a well-formed board and parsing the text back recovers every
/// field that FEN captures: the placement, the castling rights, the
/// en-passant target and both clocks. The outcome is re-derived from the
/// cells and the history restarts at the parsed text, so neither is claimed.
pub proof fn lemma_fen_round_trip(m: BoardModel, next: Color)
    requires
        board_wf(m),
    ensures
        parse_fen_spec(fen_str(m, next)) is Ok,
        parse_fen_spec(fen_str(m, next))->Ok_0.cells == m.cells,
        parse_fen_spec(fen_str(m, next))->Ok_0.castling == m.castling,
        parse_fen_spec(fen_str(m, next))->Ok_0.en_passant == m.en_passant,
        parse_fen_spec(fen_str(m, next))->Ok_0.halfmove == m.halfmove,
        parse_fen_spec(fen_str(m, next))->Ok_0.fullmove == m.fullmove,
{
    let f0 = placement_str(m.cells);
    let f1 = seq![color_char(next)];
    let f2 = castle_str(m.castling);
    let f3 = ep_str(m.en_passant);
    let f4 = dec_str(m.halfmove as int);
    let f5 = dec_str(m.fullmove as int);
    let fields = seq![f0, f1, f2, f3, f4, f5];
    let s = fen_str(m, next);
    assert(s == join_char(fields, ' '));
    lemma_placement_clean(m.cells);
    assert(!has_char(f1, ' ')) by {
        assert(forall|i: int| 0 <= i < 1 ==> f1[i] == color_char(next));
    }
    lemma_castle_fields(m.castling);
    assert(!has_char(f3, ' ')) by {
        match m.en_passant {
            None => {
                assert(forall|i: int| 0 <= i < 1 ==> f3[i] == '-');
            },
            Some(sq) => {
                assert(f3.len() == 2);
                assert(f3[0] == file_char(sq.col as int));
                assert(f3[1] == digit_char(sq.row + 1));
            },
        }
    }
    lemma_dec_str_digits(m.halfmove as int);
    lemma_dec_str_digits(m.fullmove as int);
    assert(!has_char(f4, ' ')) by {
        assert(forall|i: int| 0 <= i < f4.len() ==> is_digit(#[trigger] f4[i]));
    }
    assert(!has_char(f5, ' ')) by {
        assert(forall|i: int| 0 <= i < f5.len() ==> is_digit(#[trigger] f5[i]));
    }
    assert(forall|i: int| 0 <= i < fields.len() ==> !has_char(#[trigger] fields[i], ' ')) by {
        assert(fields[0] == f0 && fields[1] == f1 && fields[2] == f2 && fields[3] == f3
            && fields[4] == f4 && fields[5] == f5);
    }
    lemma_split_join(fields, ' ');
    assert(split_char(s, ' ') == fields);
    lemma_placement_round(m.cells);
    assert(is_color_field(f1));
    match m.en_passant {
        None => {
            assert(is_dash(f3));
        },
        Some(sq) => {
            assert(!is_dash(f3));
            lemma_tile_inverse(sq);
            assert(square_spec(f3) == Some(sq));
        },
    }
    lemma_parse_dec_str(m.halfmove as int);
    lemma_parse_dec_str(m.fullmove as int);
    assert(parse_fen_spec(s) is Ok);
}

} // verus!

verus! {

/// A board's FEN text never holds a backslash or a plus sign, so board
/// texts can be joined into meta-level text and split apart again.
pub proof fn lemma_fen_str_clean(m: BoardModel, next: Color)
    ensures
        !has_char(fen_str(m, next), '\\'),
        !has_char(fen_str(m, next), '+'),
{
    let f0 = placement_str(m.cells);
    let f1 = seq![color_char(next)];
    let f2 = castle_str(m.castling);
    let f3 = ep_str(m.en_passant);
    let f4 = dec_str(m.halfmove as int);
    let f5 = dec_str(m.fullmove as int);
    let fields = seq![f0, f1, f2, f3, f4, f5];
    lemma_placement_clean_of(m.cells, '\\');
    lemma_placement_clean_of(m.cells, '+');
    assert(!has_char(f1, '\\') && !has_char(f1, '+')) by {
        assert(forall|i: int| 0 <= i < 1 ==> f1[i] == color_char(next));
    }
    lemma_castle_clean_of(m.castling, '\\');
    lemma_castle_clean_of(m.castling, '+');
    assert(!has_char(f3, '\\') && !has_char(f3, '+')) by {
        match m.en_passant {
            None => {
                assert(forall|i: int| 0 <= i < 1 ==> f3[i] == '-');
            },
            Some(sq) => {
                assert(f3.len() == 2);
                assert(f3[0] == file_char(sq.col as int));
                assert(f3[1] == digit_char(sq.row + 1));
            },
        }
    }
    lemma_dec_str_digits(m.halfmove as int);
    lemma_dec_str_digits(m.fullmove as int);
    assert(!has_char(f4, '\\') && !has_char(f4, '+')) by {
        assert(forall|i: int| 0 <= i < f4.len() ==> is_digit(#[trigger] f4[i]));
    }
    assert(!has_char(f5, '\\') && !has_char(f5, '+')) by {
        assert(forall|i: int| 0 <= i < f5.len() ==> is_digit(#[trigger] f5[i]));
    }
    assert(forall|i: int| 0 <= i < fields.len() ==> !has_char(#[trigger] fields[i], '\\')
        && !has_char(fields[i], '+')) by {
        assert(fields[0] == f0 && fields[1] == f1 && fields[2] == f2 && fields[3] == f3
            && fields[4] == f4 && fields[5] == f5);
    }
    lemma_join_clean(fields, ' ', '\\');
    lemma_join_clean(fields, ' ', '+');
}

/// The placement field is free of any character that is neither a digit,
/// a piece letter nor the rank separator.
proof fn lemma_placement_clean_of(cells: Seq<Seq<Option<Piece>>>, c: char)
    requires
        !is_digit(c),
        piece_of_char(c) is None,
        c != '/',
    ensures
        !has_char(placement_str(cells), c),
{
    let n = cells.len() as int;
    let ranks = Seq::new(cells.len(), |i: int| rank_str(cells[n - 1 - i]));
    assert forall|i: int| 0 <= i < ranks.len() implies !has_char(#[trigger] ranks[i], c) by {
        lemma_rank_enc_chars(cells[n - 1 - i], 0);
        let s = rank_str(cells[n - 1 - i]);
        assert(forall|j: int| 0 <= j < s.len() ==> s[j] != c) by {
            assert(forall|j: int| 0 <= j < s.len() ==> is_digit(#[trigger] s[j]) || piece_of_char(
                s[j],
            ) is Some);
        }
    }
    lemma_join_clean(ranks, '/', c);
}

/// The castling field is free of any character that is not one of its five.
proof fn lemma_castle_clean_of(cr: CastlingRights, c: char)
    requires
        c != 'K',
        c != 'Q',
        c != 'k',
        c != 'q',
        c != '-',
    ensures
        !has_char(castle_str(cr), c),
{
    let a = if cr.white_king { seq!['K'] } else { Seq::<char>::empty() };
    let b = if cr.white_queen { seq!['Q'] } else { Seq::<char>::empty() };
    let cc = if cr.black_king { seq!['k'] } else { Seq::<char>::empty() };
    let d = if cr.black_queen { seq!['q'] } else { Seq::<char>::empty() };
    let s = a + b + cc + d;
    lemma_has_char_concat(a, b, c);
    lemma_has_char_concat(a + b, cc, c);
    lemma_has_char_concat(a + b + cc, d, c);
    assert(!has_char(a, c)) by {
        if cr.white_king {
            assert(forall|i: int| 0 <= i < 1 ==> a[i] == 'K');
        }
    }
    assert(!has_char(b, c)) by {
        if cr.white_queen {
            assert(forall|i: int| 0 <= i < 1 ==> b[i] == 'Q');
        }
    }
    assert(!has_char(cc, c)) by {
        if cr.black_king {
            assert(forall|i: int| 0 <= i < 1 ==> cc[i] == 'k');
        }
    }
    assert(!has_char(d, c)) by {
        if cr.black_queen {
            assert(forall|i: int| 0 <= i < 1 ==> d[i] == 'q');
        }
    }
    if s.len() == 0 {
        assert(castle_str(cr) == seq!['-']);
        assert(forall|i: int| 0 <= i < 1 ==> seq!['-'][i] == '-');
    } else {
        assert(castle_str(cr) == s);
    }
}

} // verus!

verus! {

/// A rank text whose every character is a piece letter or the digit one
/// decodes cell-for-cell: each character yields exactly one cell, empty
/// exactly at the ones.
pub proof fn lemma_rank_single_cells(s: Seq<char>)
    requires
        forall|i: int| 0 <= i < s.len() ==> piece_of_char(#[trigger] s[i]) is Some || s[i] == '1',
    ensures
        rank_decode(s) is Some,
        rank_decode(s)->0.len() == s.len(),
        forall|i: int| 0 <= i < s.len() ==> (rank_decode(s)->0[i] is None <==> #[trigger] s[i]
            == '1'),
    decreases s.len(),
{
    if s.len() == 0 {
    } else {
        let t = s.skip(1);
        assert(forall|i: int| 0 <= i < t.len() ==> #[trigger] t[i] == s[i + 1]);
        lemma_rank_single_cells(t);
        let rest = rank_decode(t)->0;
        let c = s[0];
        if c == '1' {
            assert(is_digit(c));
            assert(digit_val(c) == 1);
            let cells = rank_decode(s)->0;
            assert(cells == empty_cells(1) + rest);
            assert(cells.len() == s.len());
            assert(cells[0] is None);
            assert forall|i: int| 0 <= i < s.len() implies (cells[i] is None <==> #[trigger] s[i]
                == '1') by {
                if i > 0 {
                    assert(t[i - 1] == s[i]);
                    assert(cells[i] == rest[i - 1]);
                    assert(rest[i - 1] is None <==> t[i - 1] == '1');
                }
            }
        } else {
            assert(!is_digit(c)) by {
                assert(piece_of_char(c) is Some);
            }
            let p = piece_of_char(c)->0;
            let cells = rank_decode(s)->0;
            assert(cells == seq![Some(p)] + rest);
            assert(cells.len() == s.len());
            assert(cells[0] is Some);
            assert forall|i: int| 0 <= i < s.len() implies (cells[i] is None <==> #[trigger] s[i]
                == '1') by {
                if i > 0 {
                    assert(t[i - 1] == s[i]);
                    assert(cells[i] == rest[i - 1]);
                    assert(rest[i - 1] is None <==> t[i - 1] == '1');
                }
            }
        }
    }
}

} // verus!

verus! {

/// Eight drawn ranks of single-cell symbols, joined by `/` and suffixed
/// with the fixed fields, parse to a board with full castling rights, no
/// en-passant target, clocks zero and one, and the outcome read off the
/// cells; row 0 of the cells decodes the last rank drawn.
pub proof fn lemma_drawn_text_parses(chunks: Seq<Seq<char>>)
    requires
        chunks.len() == 8,
        forall|x: int| 0 <= x < 8 ==> (#[trigger] chunks[x]).len() == 8,
        forall|x: int, i: int|
            0 <= x < 8 && 0 <= i < 8 ==> piece_of_char(#[trigger] chunks[x][i]) is Some
                || chunks[x][i] == '1',
    ensures
        ({
            let text = join_char(chunks, '/') + seq![
                ' ',
                'w',
                ' ',
                'K',
                'Q',
                'k',
                'q',
                ' ',
                '-',
                ' ',
                '0',
                ' ',
                '1',
            ];
            &&& parse_fen_spec(text) is Ok
            &&& ({
                let m = parse_fen_spec(text)->Ok_0;
                &&& m.cells == Seq::new(8, |r: int| rank_decode(chunks[7 - r])->0)
                &&& m.castling == (CastlingRights {
                    white_king: true,
                    white_queen: true,
                    black_king: true,
                    black_queen: true,
                })
                &&& m.en_passant is None
                &&& m.halfmove == 0
                &&& m.fullmove == 1
                &&& m.end == end_scan(m.cells)
            })
        }),
{
    let placement = join_char(chunks, '/');
    let f1 = seq!['w'];
    let f2 = seq!['K', 'Q', 'k', 'q'];
    let f3 = seq!['-'];
    let f4 = seq!['0'];
    let f5 = seq!['1'];
    let text = placement + seq![' ', 'w', ' ', 'K', 'Q', 'k', 'q', ' ', '-', ' ', '0', ' ', '1'];
    lemma_join6(placement, f1, f2, f3, f4, f5, ' ');
    assert(text =~= join_char(seq![placement, f1, f2, f3, f4, f5], ' '));
    assert forall|x: int| 0 <= x < 8 implies !has_char(#[trigger] chunks[x], ' ') && !has_char(
        chunks[x],
        '/',
    ) by {
        if has_char(chunks[x], ' ') {
            let i = choose|i: int| 0 <= i < chunks[x].len() && chunks[x][i] == ' ';
            assert(piece_of_char(chunks[x][i]) is Some || chunks[x][i] == '1');
        }
        if has_char(chunks[x], '/') {
            let i = choose|i: int| 0 <= i < chunks[x].len() && chunks[x][i] == '/';
            assert(piece_of_char(chunks[x][i]) is Some || chunks[x][i] == '1');
        }
    }
    lemma_join_clean(chunks, '/', ' ');
    assert(!has_char(f1, ' ')) by {
        assert(forall|i: int| 0 <= i < 1 ==> f1[i] == 'w');
    }
    assert(!has_char(f2, ' ')) by {
        assert(f2[0] == 'K' && f2[1] == 'Q' && f2[2] == 'k' && f2[3] == 'q');
        assert(forall|i: int| 0 <= i < 4 ==> f2[i] == 'K' || f2[i] == 'Q' || f2[i] == 'k' || f2[i]
            == 'q');
    }
    assert(!has_char(f3, ' ')) by {
        assert(forall|i: int| 0 <= i < 1 ==> f3[i] == '-');
    }
    assert(!has_char(f4, ' ')) by {
        assert(forall|i: int| 0 <= i < 1 ==> f4[i] == '0');
    }
    assert(!has_char(f5, ' ')) by {
        assert(forall|i: int| 0 <= i < 1 ==> f5[i] == '1');
    }
    let fields = seq![placement, f1, f2, f3, f4, f5];
    assert(forall|i: int| 0 <= i < fields.len() ==> !has_char(#[trigger] fields[i], ' ')) by {
        assert(fields[0] == placement && fields[1] == f1 && fields[2] == f2 && fields[3] == f3
            && fields[4] == f4 && fields[5] == f5);
    }
    lemma_split_join(fields, ' ');
    assert(split_char(text, ' ') == fields);
    lemma_split_join(chunks, '/');
    assert(split_char(placement, '/') == chunks);
    assert forall|x: int| 0 <= x < 8 implies rank_ok(#[trigger] chunks[x]) by {
        lemma_rank_single_cells(chunks[x]);
    }
    assert forall|x: int| 0 <= x < 8 implies rank_decode(#[trigger] chunks[x]) is Some by {
        lemma_rank_single_cells(chunks[x]);
    }
    assert(placement_decode(placement) == Some(Seq::new(8, |r: int| rank_decode(chunks[7 - r])->0)));
    assert(is_color_field(f1));
    assert(is_dash(f3));
    assert(parse_usize_spec(f4) == Some(0nat)) by {
        assert(f4[0] == '0');
        assert(forall|i: int| 0 <= i < 1 ==> is_digit(#[trigger] f4[i]));
        assert(f4.drop_last() =~= Seq::<char>::empty());
        assert(crate::text::dec_val(Seq::<char>::empty()) == 0);
        assert(f4.last() == '0');
        assert(digit_val('0') == 0);
        assert(crate::text::dec_val(f4) == crate::text::dec_val(f4.drop_last()) * 10 + digit_val(
            f4.last(),
        ));
        assert(crate::text::dec_val(f4) == 0);
    }
    assert(parse_usize_spec(f5) == Some(1nat)) by {
        assert(f5[0] == '1');
        assert(forall|i: int| 0 <= i < 1 ==> is_digit(#[trigger] f5[i]));
        assert(f5.drop_last() =~= Seq::<char>::empty());
        assert(crate::text::dec_val(Seq::<char>::empty()) == 0);
        assert(f5.last() == '1');
        assert(digit_val('1') == 1);
        assert(crate::text::dec_val(f5) == crate::text::dec_val(f5.drop_last()) * 10 + digit_val(
            f5.last(),
        ));
        assert(crate::text::dec_val(f5) == 1);
    }
    assert(has_char(f2, 'K')) by {
        assert(f2[0] == 'K');
    }
    assert(has_char(f2, 'Q')) by {
        assert(f2[1] == 'Q');
    }
    assert(has_char(f2, 'k')) by {
        assert(f2[2] == 'k');
    }
    assert(has_char(f2, 'q')) by {
        assert(f2[3] == 'q');
    }
    assert(parse_fen_spec(text) is Ok);
}

} // verus!
