//! The rule engine for one board: per-kind move geometry, the attack test
//! used by castling, move validation and move execution.

use vstd::prelude::*;

use crate::board::BoardModel;
use crate::board::CastlingRights;
use crate::board::ChessBoard;
use crate::board::board_wf;
use crate::types::Color;
use crate::types::Coordinates;
use crate::types::Piece;
use crate::types::PieceName;
use crate::types::other_color;

verus! {

/// An 8-by-8 grid of cells.
pub open spec fn cells_wf(cells: Seq<Seq<Option<Piece>>>) -> bool {
    cells.len() == 8 && forall|r: int| 0 <= r < 8 ==> #[trigger] cells[r].len() == 8
}

/// The absolute difference of two cell indices.
pub open spec fn abs_diff(a: int, b: int) -> int {
    if a >= b {
        a - b
    } else {
        b - a
    }
}

/// A rook's path: along one row or one column, with every cell strictly
/// between start and end empty. Start and end equal counts as clear.
pub open spec fn rook_ok(cells: Seq<Seq<Option<Piece>>>, st: Coordinates, en: Coordinates) -> bool {
    if st.row == en.row {
        forall|i: int|
            vstd::math::min(st.col as int, en.col as int) < i < vstd::math::max(
                st.col as int,
                en.col as int,
            ) ==> cells[st.row as int][i] is None
    } else if st.col == en.col {
        forall|i: int|
            vstd::math::min(st.row as int, en.row as int) < i < vstd::math::max(
                st.row as int,
                en.row as int,
            ) ==> cells[i][st.col as int] is None
    } else {
        false
    }
}

/// A bishop's path: a strict diagonal, with every cell strictly between
/// start and end empty.
pub open spec fn bishop_ok(cells: Seq<Seq<Option<Piece>>>, st: Coordinates, en: Coordinates) -> bool {
    let dr = abs_diff(st.row as int, en.row as int);
    let dc = abs_diff(st.col as int, en.col as int);
    if dr != dc || st.row == en.row || st.col == en.col {
        false
    } else {
        forall|k: int| 1 <= k < dr ==> #[trigger] diag_cell(cells, st, en, k) is None
    }
}

/// The cell `k` diagonal steps from `st` toward `en`.
pub open spec fn diag_cell(
    cells: Seq<Seq<Option<Piece>>>,
    st: Coordinates,
    en: Coordinates,
    k: int,
) -> Option<Piece> {
    let row_dir: int = if en.row > st.row { 1 } else { -1 };
    let col_dir: int = if en.col > st.col { 1 } else { -1 };
    cells[st.row + k * row_dir][st.col + k * col_dir]
}

/// A knight's jump: one step one way and two the other.
pub open spec fn knight_ok(st: Coordinates, en: Coordinates) -> bool {
    (abs_diff(st.row as int, en.row as int) == 1 && abs_diff(st.col as int, en.col as int) == 2)
        || (abs_diff(st.row as int, en.row as int) == 2 && abs_diff(st.col as int, en.col as int)
        == 1)
}

/// A king's step: to an adjacent cell, judged as a one-cell rook or bishop
/// move next to a one-row or one-column offset.
pub open spec fn king_ok(cells: Seq<Seq<Option<Piece>>>, st: Coordinates, en: Coordinates) -> bool {
    (abs_diff(st.row as int, en.row as int) == 1 || abs_diff(st.col as int, en.col as int) == 1)
        && (bishop_ok(cells, st, en) || rook_ok(cells, st, en))
}

/// Whether cell `(r, c)` lies on the board and holds exactly `p`.
pub open spec fn piece_at(cells: Seq<Seq<Option<Piece>>>, r: int, c: int, p: Piece) -> bool {
    0 <= r < 8 && 0 <= c < 8 && cells[r][c] == Some(p)
}

/// The first piece along the ray from `(r, c)` in direction `(dr, dc)`,
/// scanning outward while cells stay on the board; `fuel` bounds the scan
/// and eight steps cross any board.
pub open spec fn ray_first(
    cells: Seq<Seq<Option<Piece>>>,
    r: int,
    c: int,
    dr: int,
    dc: int,
    fuel: nat,
) -> Option<Piece>
    decreases fuel,
{
    if fuel == 0 {
        None
    } else {
        let nr = r + dr;
        let nc = c + dc;
        if !(0 <= nr < 8 && 0 <= nc < 8) {
            None
        } else {
            match cells[nr][nc] {
                Some(p) => Some(p),
                None => ray_first(cells, nr, nc, dr, dc, (fuel - 1) as nat),
            }
        }
    }
}

/// Whether the first piece out along one ray is an enemy slider that moves
/// this way: a queen always, a bishop on a diagonal, a rook on a line.
pub open spec fn ray_threat(
    cells: Seq<Seq<Option<Piece>>>,
    r: int,
    c: int,
    dr: int,
    dc: int,
    by: Color,
    diag: bool,
) -> bool {
    match ray_first(cells, r, c, dr, dc, 8) {
        Some(p) => p.color == by && (p.name == PieceName::QUEEN || p.name == (if diag {
            PieceName::BISHOP
        } else {
            PieceName::ROOK
        })),
        None => false,
    }
}

/// Whether a knight of `by` sits a knight's jump away.
pub open spec fn knight_threat(cells: Seq<Seq<Option<Piece>>>, r: int, c: int, by: Color) -> bool {
    let kn = Piece { color: by, name: PieceName::KNIGHT };
    piece_at(cells, r + 2, c + 1, kn) || piece_at(cells, r + 2, c - 1, kn) || piece_at(
        cells,
        r - 2,
        c + 1,
        kn,
    ) || piece_at(cells, r - 2, c - 1, kn) || piece_at(cells, r + 1, c + 2, kn) || piece_at(
        cells,
        r + 1,
        c - 2,
        kn,
    ) || piece_at(cells, r - 1, c + 2, kn) || piece_at(cells, r - 1, c - 2, kn)
}

/// Whether a pawn of `by` attacks the cell with its single diagonal-forward
/// step: a White pawn from the row below, a Black pawn from the row above.
pub open spec fn pawn_threat(cells: Seq<Seq<Option<Piece>>>, r: int, c: int, by: Color) -> bool {
    let pw = Piece { color: by, name: PieceName::PAWN };
    match by {
        Color::White => piece_at(cells, r - 1, c - 1, pw) || piece_at(cells, r - 1, c + 1, pw),
        Color::Black => piece_at(cells, r + 1, c - 1, pw) || piece_at(cells, r + 1, c + 1, pw),
    }
}

/// Whether `by` attacks cell `(r, c)`: an enemy slider first out along one
/// of the eight rays, a knight a jump away, or a pawn a diagonal step away.
pub open spec fn attacked(cells: Seq<Seq<Option<Piece>>>, r: int, c: int, by: Color) -> bool {
    ||| ray_threat(cells, r, c, 1, 1, by, true)
    ||| ray_threat(cells, r, c, 1, -1, by, true)
    ||| ray_threat(cells, r, c, -1, 1, by, true)
    ||| ray_threat(cells, r, c, -1, -1, by, true)
    ||| ray_threat(cells, r, c, 1, 0, by, false)
    ||| ray_threat(cells, r, c, -1, 0, by, false)
    ||| ray_threat(cells, r, c, 0, 1, by, false)
    ||| ray_threat(cells, r, c, 0, -1, by, false)
    ||| knight_threat(cells, r, c, by)
    ||| pawn_threat(cells, r, c, by)
}

/// The first piece along a ray, as `ray_first` describes.
#[verifier::loop_isolation(false)]
fn ray_first_exec(board: &Vec<Vec<Option<Piece>>>, r0: usize, c0: usize, dr: i8, dc: i8) -> (res:
    Option<Piece>)
    requires
        cells_wf(board@.map_values(|row: Vec<Option<Piece>>| row@)),
        r0 < 8,
        c0 < 8,
        -1 <= dr <= 1,
        -1 <= dc <= 1,
        !(dr == 0 && dc == 0),
    ensures
        res == ray_first(
            board@.map_values(|row: Vec<Option<Piece>>| row@),
            r0 as int,
            c0 as int,
            dr as int,
            dc as int,
            8,
        ),
{
    let ghost cells = board@.map_values(|row: Vec<Option<Piece>>| row@);
    let mut r = r0;
    let mut c = c0;
    let ghost mut fuel: nat = 8;
    loop
        invariant
            r < 8,
            c < 8,
            1 <= fuel <= 8,
            dr != 0 ==> fuel == 8 - abs_diff(r as int, r0 as int),
            dr == 0 ==> fuel == 8 - abs_diff(c as int, c0 as int),
            dr > 0 ==> r >= r0,
            dr < 0 ==> r <= r0,
            dr == 0 ==> r == r0,
            dc > 0 ==> c >= c0,
            dc < 0 ==> c <= c0,
            dc == 0 ==> c == c0,
            dr != 0 && dc != 0 ==> abs_diff(r as int, r0 as int) == abs_diff(c as int, c0 as int),
            ray_first(cells, r0 as int, c0 as int, dr as int, dc as int, 8) == ray_first(
                cells,
                r as int,
                c as int,
                dr as int,
                dc as int,
                fuel,
            ),
        decreases fuel,
    {
        let nr: usize = if dr > 0 {
            if r == 7 {
                return None;
            }
            r + 1
        } else if dr < 0 {
            if r == 0 {
                return None;
            }
            r - 1
        } else {
            r
        };
        let nc: usize = if dc > 0 {
            if c == 7 {
                return None;
            }
            c + 1
        } else if dc < 0 {
            if c == 0 {
                return None;
            }
            c - 1
        } else {
            c
        };
        assert(nr < 8 && nc < 8);
        assert(cells[nr as int] == board@[nr as int]@);
        match board[nr][nc] {
            Some(p) => {
                return Some(p);
            },
            None => {
                r = nr;
                c = nc;
                proof {
                    fuel = (fuel - 1) as nat;
                }
            },
        }
    }
}

/// Whether cell `(r, c)` lies on the board and holds exactly `p`, as
/// `piece_at` describes; the coordinates may point off the board.
fn piece_at_exec(board: &Vec<Vec<Option<Piece>>>, r: i32, c: i32, p: Piece) -> (res: bool)
    requires
        cells_wf(board@.map_values(|row: Vec<Option<Piece>>| row@)),
    ensures
        res == piece_at(
            board@.map_values(|row: Vec<Option<Piece>>| row@),
            r as int,
            c as int,
            p,
        ),
{
    if r < 0 || r > 7 || c < 0 || c > 7 {
        return false;
    }
    let ghost cells = board@.map_values(|row: Vec<Option<Piece>>| row@);
    assert(cells[r as int] == board@[r as int]@);
    match board[r as usize][c as usize] {
        Some(q) => q.color == p.color && q.name == p.name,
        None => false,
    }
}

/// Tests one ray for an enemy slider, as `ray_threat` describes.
fn ray_threat_exec(
    board: &Vec<Vec<Option<Piece>>>,
    r: usize,
    c: usize,
    dr: i8,
    dc: i8,
    by: Color,
    diag: bool,
) -> (res: bool)
    requires
        cells_wf(board@.map_values(|row: Vec<Option<Piece>>| row@)),
        r < 8,
        c < 8,
        -1 <= dr <= 1,
        -1 <= dc <= 1,
        !(dr == 0 && dc == 0),
    ensures
        res == ray_threat(
            board@.map_values(|row: Vec<Option<Piece>>| row@),
            r as int,
            c as int,
            dr as int,
            dc as int,
            by,
            diag,
        ),
{
    match ray_first_exec(board, r, c, dr, dc) {
        Some(p) => {
            let slider = if diag {
                PieceName::BISHOP
            } else {
                PieceName::ROOK
            };
            p.color == by && (p.name == PieceName::QUEEN || p.name == slider)
        },
        None => false,
    }
}

/// Whether `by` attacks the square, as `attacked` describes.
pub fn is_attacked(board: &Vec<Vec<Option<Piece>>>, sq: Coordinates, by: Color) -> (res: bool)
    requires
        cells_wf(board@.map_values(|row: Vec<Option<Piece>>| row@)),
        sq.row < 8,
        sq.col < 8,
    ensures
        res == attacked(
            board@.map_values(|row: Vec<Option<Piece>>| row@),
            sq.row as int,
            sq.col as int,
            by,
        ),
{
    let r = sq.row;
    let c = sq.col;
    if ray_threat_exec(board, r, c, 1, 1, by, true) {
        return true;
    }
    if ray_threat_exec(board, r, c, 1, -1, by, true) {
        return true;
    }
    if ray_threat_exec(board, r, c, -1, 1, by, true) {
        return true;
    }
    if ray_threat_exec(board, r, c, -1, -1, by, true) {
        return true;
    }
    if ray_threat_exec(board, r, c, 1, 0, by, false) {
        return true;
    }
    if ray_threat_exec(board, r, c, -1, 0, by, false) {
        return true;
    }
    if ray_threat_exec(board, r, c, 0, 1, by, false) {
        return true;
    }
    if ray_threat_exec(board, r, c, 0, -1, by, false) {
        return true;
    }
    let ri = r as i32;
    let ci = c as i32;
    let kn = Piece { color: by, name: PieceName::KNIGHT };
    if piece_at_exec(board, ri + 2, ci + 1, kn) || piece_at_exec(board, ri + 2, ci - 1, kn)
        || piece_at_exec(board, ri - 2, ci + 1, kn) || piece_at_exec(board, ri - 2, ci - 1, kn)
        || piece_at_exec(board, ri + 1, ci + 2, kn) || piece_at_exec(board, ri + 1, ci - 2, kn)
        || piece_at_exec(board, ri - 1, ci + 2, kn) || piece_at_exec(board, ri - 1, ci - 2, kn) {
        return true;
    }
    let pw = Piece { color: by, name: PieceName::PAWN };
    match by {
        Color::White => piece_at_exec(board, ri - 1, ci - 1, pw) || piece_at_exec(
            board,
            ri - 1,
            ci + 1,
            pw,
        ),
        Color::Black => piece_at_exec(board, ri + 1, ci - 1, pw) || piece_at_exec(
            board,
            ri + 1,
            ci + 1,
            pw,
        ),
    }
}

} // verus!

verus! {

/// The rank a color's pieces start on.
pub open spec fn home_row(c: Color) -> int {
    match c {
        Color::White => 0,
        Color::Black => 7,
    }
}

/// Whether `next` may castle on the given side: King and Rook on their
/// original squares, the cells between them empty, the King's own square
/// unattacked, and the two squares of the King's path unattacked.
pub open spec fn castle_ok(m: BoardModel, long: bool, next: Color) -> bool {
    let hr = home_row(next);
    let opp = other_color(next);
    let cells = m.cells;
    let rook_col: int = if long { 0 } else { 7 };
    &&& cells[hr][rook_col] == Some(Piece { color: next, name: PieceName::ROOK })
    &&& cells[hr][4] == Some(Piece { color: next, name: PieceName::KING })
    &&& (if long {
        cells[hr][1] is None && cells[hr][2] is None && cells[hr][3] is None
    } else {
        cells[hr][5] is None && cells[hr][6] is None
    })
    &&& !attacked(cells, hr, 4, opp)
    &&& (if long {
        !attacked(cells, hr, 2, opp) && !attacked(cells, hr, 3, opp)
    } else {
        !attacked(cells, hr, 5, opp) && !attacked(cells, hr, 6, opp)
    })
}

/// Whether a pawn move fits the pawn's rules: a single or double advance
/// onto empty cells, or a diagonal capture onto an occupied cell or the
/// en-passant target; a move onto either back rank must carry a trailing
/// promotion letter.
pub open spec fn pawn_ok(
    m: BoardModel,
    st: Coordinates,
    en: Coordinates,
    next: Color,
    has_x: bool,
    last: char,
) -> bool {
    let cells = m.cells;
    let double = match next {
        Color::Black => st.row == 6 && en.row == 4,
        Color::White => st.row == 1 && en.row == 3,
    };
    let single = match next {
        Color::Black => st.row == en.row + 1,
        Color::White => en.row == st.row + 1,
    };
    let ep = m.en_passant == Some(en);
    let valid = if has_x {
        let diagonal = single && abs_diff(st.col as int, en.col as int) == 1;
        diagonal && (cells[en.row as int][en.col as int] is Some || ep)
    } else if single && st.col == en.col {
        cells[en.row as int][en.col as int] is None
    } else if double && st.col == en.col {
        cells[en.row as int][en.col as int] is None && (match next {
            Color::Black => cells[5][st.col as int] is None,
            Color::White => cells[2][st.col as int] is None,
        })
    } else {
        false
    };
    if en.row == 0 || en.row == 7 {
        valid && crate::moves::is_piece_letter(last)
    } else {
        valid
    }
}

/// Whether a normal (non-castle) move is legal: the destination suits the
/// capture marker, the start cell holds the mover's named piece, and the
/// piece's geometry allows the step.
pub open spec fn normal_move_ok(m: BoardModel, s: Seq<char>, next: Color) -> bool {
    let st = crate::moves::move_start(s);
    let en = crate::moves::move_end(s);
    let kind = crate::moves::move_kind(s);
    let piece = Piece { color: next, name: kind };
    let has_x = crate::moves::move_has_x(s);
    let cells = m.cells;
    let dest = cells[en.row as int][en.col as int];
    if !has_x && dest is Some {
        false
    } else if has_x && (match dest {
        Some(p) => p.color == next,
        None => false,
    }) {
        false
    } else if has_x && dest is None && kind != PieceName::PAWN {
        false
    } else if cells[st.row as int][st.col as int] != Some(piece) {
        false
    } else {
        match kind {
            PieceName::ROOK => rook_ok(cells, st, en),
            PieceName::KNIGHT => knight_ok(st, en),
            PieceName::BISHOP => bishop_ok(cells, st, en),
            PieceName::QUEEN => rook_ok(cells, st, en) || bishop_ok(cells, st, en),
            PieceName::KING => king_ok(cells, st, en),
            PieceName::PAWN => pawn_ok(m, st, en, next, has_x, s[s.len() - 1]),
        }
    }
}

/// Whether the move text names a legal move for `next` on this board.
pub open spec fn valid_move(m: BoardModel, s: Seq<char>, next: Color) -> bool {
    if crate::moves::is_castle_short(s) {
        castle_ok(m, false, next)
    } else if crate::moves::is_castle_long(s) {
        castle_ok(m, true, next)
    } else {
        normal_move_ok(m, s, next)
    }
}

/// The absolute difference of two indices.
fn abs_diff_exec(a: usize, b: usize) -> (r: usize)
    ensures
        r == abs_diff(a as int, b as int),
{
    if a >= b {
        a - b
    } else {
        b - a
    }
}

/// A rook's path test, as `rook_ok` describes.
#[verifier::loop_isolation(false)]
fn validate_rook(st: Coordinates, en: Coordinates, board: &Vec<Vec<Option<Piece>>>) -> (res: bool)
    requires
        cells_wf(board@.map_values(|row: Vec<Option<Piece>>| row@)),
        st.row < 8,
        st.col < 8,
        en.row < 8,
        en.col < 8,
    ensures
        res == rook_ok(board@.map_values(|row: Vec<Option<Piece>>| row@), st, en),
{
    let ghost cells = board@.map_values(|row: Vec<Option<Piece>>| row@);
    if st.row == en.row {
        let lo = if st.col <= en.col { st.col } else { en.col };
        let hi = if st.col <= en.col { en.col } else { st.col };
        let mut i = lo + 1;
        while i < hi
            invariant
                lo < i <= hi || i == lo + 1,
                forall|j: int| lo < j < i ==> cells[st.row as int][j] is None,
            decreases hi - i,
        {
            assert(cells[st.row as int] == board@[st.row as int]@);
            if board[st.row][i].is_some() {
                assert(!rook_ok(cells, st, en));
                return false;
            }
            i = i + 1;
        }
        true
    } else if st.col == en.col {
        let lo = if st.row <= en.row { st.row } else { en.row };
        let hi = if st.row <= en.row { en.row } else { st.row };
        let mut i = lo + 1;
        while i < hi
            invariant
                lo < i <= hi || i == lo + 1,
                forall|j: int| lo < j < i ==> cells[j][st.col as int] is None,
            decreases hi - i,
        {
            assert(cells[i as int] == board@[i as int]@);
            if board[i][st.col].is_some() {
                assert(!rook_ok(cells, st, en));
                return false;
            }
            i = i + 1;
        }
        true
    } else {
        false
    }
}

/// A bishop's path test, as `bishop_ok` describes.
#[verifier::loop_isolation(false)]
fn validate_bishop(st: Coordinates, en: Coordinates, board: &Vec<Vec<Option<Piece>>>) -> (res: bool)
    requires
        cells_wf(board@.map_values(|row: Vec<Option<Piece>>| row@)),
        st.row < 8,
        st.col < 8,
        en.row < 8,
        en.col < 8,
    ensures
        res == bishop_ok(board@.map_values(|row: Vec<Option<Piece>>| row@), st, en),
{
    let ghost cells = board@.map_values(|row: Vec<Option<Piece>>| row@);
    let dr = abs_diff_exec(st.row, en.row);
    let dc = abs_diff_exec(st.col, en.col);
    if dr != dc || st.row == en.row || st.col == en.col {
        return false;
    }
    let ghost row_dir: int = if en.row > st.row { 1 } else { -1 };
    let ghost col_dir: int = if en.col > st.col { 1 } else { -1 };
    let mut k: usize = 1;
    while k < dr
        invariant
            1 <= k <= dr,
            forall|j: int| 1 <= j < k ==> #[trigger] diag_cell(cells, st, en, j) is None,
        decreases dr - k,
    {
        let rr = if en.row > st.row {
            st.row + k
        } else {
            st.row - k
        };
        let cc = if en.col > st.col {
            st.col + k
        } else {
            st.col - k
        };
        assert(rr as int == st.row + k * row_dir) by {
            assert(k * 1int == k);
            assert(k * -1int == -(k as int));
        }
        assert(cc as int == st.col + k * col_dir) by {
            assert(k * 1int == k);
            assert(k * -1int == -(k as int));
        }
        assert(rr < 8 && cc < 8);
        assert(cells[rr as int] == board@[rr as int]@);
        if board[rr][cc].is_some() {
            assert(diag_cell(cells, st, en, k as int) is Some);
            assert(!bishop_ok(cells, st, en));
            return false;
        }
        k = k + 1;
        assert(diag_cell(cells, st, en, k as int - 1) is None);
    }
    true
}

} // verus!

verus! {

/// One cell of the grid.
fn cell_get(board: &Vec<Vec<Option<Piece>>>, r: usize, c: usize) -> (res: Option<Piece>)
    requires
        cells_wf(board@.map_values(|row: Vec<Option<Piece>>| row@)),
        r < 8,
        c < 8,
    ensures
        res == board@.map_values(|row: Vec<Option<Piece>>| row@)[r as int][c as int],
{
    proof {
        assert(board@.map_values(|row: Vec<Option<Piece>>| row@)[r as int] == board@[r as int]@);
    }
    board[r][c]
}

impl ChessBoard {
    /// Decides whether the move text names a legal move for `next`, as
    /// `valid_move` describes. Text the move grammar refuses is an error, as
    /// is any move on a board already decided; an illegal move is `Ok(false)`.
    #[verifier::loop_isolation(false)]
    pub fn validate_move(&self, move_string: &str, next: Color) -> (r: Result<bool, crate::types::ChessError>)
        requires
            board_wf(self@),
        ensures
            match r {
                Ok(v) => crate::moves::grammar_ok(move_string@) && self@.end
                    == crate::types::EndResult::Undecided(true) && v == valid_move(
                    self@,
                    move_string@,
                    next,
                ),
                Err(e) => (e == crate::types::ChessError::FenError(
                    crate::types::FenError::InvalidFormat,
                ) && !crate::moves::grammar_ok(move_string@)) || (e
                    == crate::types::ChessError::MoveError(crate::types::MoveError::GameOver)
                    && crate::moves::grammar_ok(move_string@) && self@.end
                    != crate::types::EndResult::Undecided(true)),
            },
    {
        let ghost ms = move_string@;
        let chars = crate::text::str_to_chars(move_string);
        let is_short = chars.len() == 3 && chars[0] == 'O' && chars[1] == '-' && chars[2] == 'O';
        let is_long = chars.len() == 5 && chars[0] == 'O' && chars[1] == '-' && chars[2] == 'O'
            && chars[3] == '-' && chars[4] == 'O';
        assert(is_short == crate::moves::is_castle_short(ms));
        assert(is_long == crate::moves::is_castle_long(ms));
        let parsed: Option<(Coordinates, Coordinates, PieceName)> = if is_short || is_long {
            None
        } else {
            match crate::moves::parse_normal_move(&chars) {
                Ok(t) => Some(t),
                Err(_) => {
                    return Err(crate::types::ChessError::FenError(
                        crate::types::FenError::InvalidFormat,
                    ));
                },
            }
        };
        if !(self.end == crate::types::EndResult::Undecided(true)) {
            return Err(crate::types::ChessError::MoveError(crate::types::MoveError::GameOver));
        }
        let ghost cells = self@.cells;
        if is_short || is_long {
            let long = is_long;
            let hr: usize = match next {
                Color::White => 0,
                Color::Black => 7,
            };
            let rook_col: usize = if long {
                0
            } else {
                7
            };
            let opp = next.other();
            let rook_at = cell_get(&self.board, hr, rook_col);
            let king_at = cell_get(&self.board, hr, 4);
            let rook_there = match rook_at {
                Some(p) => p.color == next && p.name == PieceName::ROOK,
                None => false,
            };
            let king_there = match king_at {
                Some(p) => p.color == next && p.name == PieceName::KING,
                None => false,
            };
            let between_ok = if long {
                cell_get(&self.board, hr, 1).is_none() && cell_get(&self.board, hr, 2).is_none()
                    && cell_get(&self.board, hr, 3).is_none()
            } else {
                cell_get(&self.board, hr, 5).is_none() && cell_get(&self.board, hr, 6).is_none()
            };
            let king_safe = !is_attacked(&self.board, Coordinates { row: hr, col: 4 }, opp);
            let path_safe = if long {
                !is_attacked(&self.board, Coordinates { row: hr, col: 2 }, opp) && !is_attacked(
                    &self.board,
                    Coordinates { row: hr, col: 3 },
                    opp,
                )
            } else {
                !is_attacked(&self.board, Coordinates { row: hr, col: 5 }, opp) && !is_attacked(
                    &self.board,
                    Coordinates { row: hr, col: 6 },
                    opp,
                )
            };
            let v = rook_there && king_there && between_ok && king_safe && path_safe;
            assert(v == castle_ok(self@, long, next));
            return Ok(v);
        }
        let (st, en, kind) = parsed.unwrap();
        proof {
            assert(st.row < 8 && st.col < 8 && en.row < 8 && en.col < 8);
        }
        let has_x = crate::fen::contains_char(&chars, 'x');
        let dest = cell_get(&self.board, en.row, en.col);
        if !has_x {
            if dest.is_some() {
                return Ok(false);
            }
        } else {
            match dest {
                Some(p) => {
                    if p.color == next {
                        return Ok(false);
                    }
                },
                None => {
                    if !(kind == PieceName::PAWN) {
                        return Ok(false);
                    }
                },
            }
        }
        let start = cell_get(&self.board, st.row, st.col);
        let start_ok = match start {
            Some(p) => p.color == next && p.name == kind,
            None => false,
        };
        if !start_ok {
            return Ok(false);
        }
        match kind {
            PieceName::ROOK => Ok(validate_rook(st, en, &self.board)),
            PieceName::KNIGHT => {
                let v = (abs_diff_exec(st.row, en.row) == 1 && abs_diff_exec(st.col, en.col) == 2)
                    || (abs_diff_exec(st.row, en.row) == 2 && abs_diff_exec(st.col, en.col) == 1);
                Ok(v)
            },
            PieceName::BISHOP => Ok(validate_bishop(st, en, &self.board)),
            PieceName::QUEEN => {
                let v = validate_rook(st, en, &self.board) || validate_bishop(st, en, &self.board);
                Ok(v)
            },
            PieceName::KING => {
                let diff = abs_diff_exec(st.row, en.row) == 1 || abs_diff_exec(st.col, en.col)
                    == 1;
                if diff {
                    let v = validate_bishop(st, en, &self.board) || validate_rook(
                        st,
                        en,
                        &self.board,
                    );
                    Ok(v)
                } else {
                    Ok(false)
                }
            },
            PieceName::PAWN => {
                let double = match next {
                    Color::Black => st.row == 6 && en.row == 4,
                    Color::White => st.row == 1 && en.row == 3,
                };
                let single = match next {
                    Color::Black => st.row == en.row + 1,
                    Color::White => en.row == st.row + 1,
                };
                let ep = match self.en_passant {
                    Some(t) => t.row == en.row && t.col == en.col,
                    None => false,
                };
                let valid = if has_x {
                    let diagonal = single && abs_diff_exec(st.col, en.col) == 1;
                    diagonal && (dest.is_some() || ep)
                } else if single && st.col == en.col {
                    dest.is_none()
                } else if double && st.col == en.col {
                    let mid_clear = match next {
                        Color::Black => cell_get(&self.board, 5, st.col).is_none(),
                        Color::White => cell_get(&self.board, 2, st.col).is_none(),
                    };
                    dest.is_none() && mid_clear
                } else {
                    false
                };
                let v = if en.row == 0 || en.row == 7 {
                    let last = chars[chars.len() - 1];
                    valid && crate::moves::piece_letter_of(last).is_some()
                } else {
                    valid
                };
                assert(v == pawn_ok(self@, st, en, next, has_x, ms[ms.len() - 1]));
                Ok(v)
            },
        }
    }
}

} // verus!

verus! {

/// `n + 1`, held at the machine's top value rather than wrapping.
pub open spec fn sat_inc(n: nat) -> nat {
    if n < usize::MAX {
        (n + 1) as nat
    } else {
        n
    }
}

/// `n + 1`, as `sat_inc` describes.
fn sat_inc_exec(n: usize) -> (r: usize)
    ensures
        r as nat == sat_inc(n as nat),
{
    if n < usize::MAX {
        n + 1
    } else {
        n
    }
}

/// The grid with cell `(r, c)` replaced by `v`.
pub open spec fn place(
    cells: Seq<Seq<Option<Piece>>>,
    r: int,
    c: int,
    v: Option<Piece>,
) -> Seq<Seq<Option<Piece>>> {
    cells.update(r, cells[r].update(c, v))
}

/// The rights with both castlings of `c` withdrawn.
pub open spec fn clear_rights(cr: CastlingRights, c: Color) -> CastlingRights {
    match c {
        Color::White => CastlingRights {
            white_king: false,
            white_queen: false,
            black_king: cr.black_king,
            black_queen: cr.black_queen,
        },
        Color::Black => CastlingRights {
            white_king: cr.white_king,
            white_queen: cr.white_queen,
            black_king: false,
            black_queen: false,
        },
    }
}

/// The rights after a rook of `next` left its home corner square `st`, by
/// moving away or by being captured there: that side's castling is
/// withdrawn.
pub open spec fn rook_rights(cr: CastlingRights, next: Color, st: Coordinates) -> CastlingRights {
    match next {
        Color::Black => {
            if st.row == 7 && st.col == 0 {
                CastlingRights { black_queen: false, ..cr }
            } else if st.row == 7 && st.col == 7 {
                CastlingRights { black_king: false, ..cr }
            } else {
                cr
            }
        },
        Color::White => {
            if st.row == 0 && st.col == 0 {
                CastlingRights { white_queen: false, ..cr }
            } else if st.row == 0 && st.col == 7 {
                CastlingRights { white_king: false, ..cr }
            } else {
                cr
            }
        },
    }
}

/// How many recorded positions share the given placement field.
pub open spec fn count_matching(past: Seq<Seq<char>>, plc: Seq<char>) -> nat
    decreases past.len(),
{
    if past.len() == 0 {
        0
    } else {
        count_matching(past.drop_last(), plc) + (if crate::text::split_char(past.last(), ' ')[0]
            == plc {
            1nat
        } else {
            0nat
        })
    }
}

/// The board after a castle's own surgery, before the position is recorded:
/// King and Rook relocated, both castlings of the mover withdrawn, the
/// en-passant target cleared, the halfmove clock up by one and the move
/// counter up after Black.
pub open spec fn apply_castle(m: BoardModel, long: bool, next: Color) -> BoardModel {
    let hr = home_row(next);
    let king_new: int = if long { 2 } else { 6 };
    let rook_old: int = if long { 0 } else { 7 };
    let rook_new: int = if long { 3 } else { 5 };
    let cells1 = place(m.cells, hr, 4, None);
    let cells2 = place(cells1, hr, king_new, Some(Piece { color: next, name: PieceName::KING }));
    let cells3 = place(cells2, hr, rook_old, None);
    let cells4 = place(cells3, hr, rook_new, Some(Piece { color: next, name: PieceName::ROOK }));
    BoardModel {
        cells: cells4,
        castling: clear_rights(m.castling, next),
        en_passant: None,
        halfmove: sat_inc(m.halfmove),
        fullmove: if next == Color::Black {
            sat_inc(m.fullmove)
        } else {
            m.fullmove
        },
        end: m.end,
        past: m.past,
    }
}

/// The board after a normal move, before the position is recorded: the
/// en-passant victim removed when one was taken, the piece moved and
/// possibly promoted, castling rights withdrawn as King or Rook moves and
/// Rook captures demand, the en-passant target refreshed, the clocks
/// advanced, and the opponent's King captured ending the board.
pub open spec fn apply_normal_core(m: BoardModel, s: Seq<char>, next: Color) -> BoardModel {
    let st = crate::moves::move_start(s);
    let en = crate::moves::move_end(s);
    let kind = crate::moves::move_kind(s);
    let piece = Piece { color: next, name: kind };
    let has_x = crate::moves::move_has_x(s);
    let opp = other_color(next);
    let king_capture = m.cells[en.row as int][en.col as int] == Some(
        Piece { color: opp, name: PieceName::KING },
    );
    let ep_taken = kind == PieceName::PAWN && m.en_passant == Some(en);
    let victim_row: int = if next == Color::Black {
        en.row + 1
    } else {
        en.row - 1
    };
    let cells1 = if ep_taken {
        place(m.cells, victim_row, en.col as int, None)
    } else {
        m.cells
    };
    let cells2 = place(
        place(cells1, st.row as int, st.col as int, None),
        en.row as int,
        en.col as int,
        Some(piece),
    );
    let promoted = kind == PieceName::PAWN && crate::moves::is_piece_letter(s[s.len() - 1]);
    let cells3 = if promoted {
        place(
            cells2,
            en.row as int,
            en.col as int,
            Some(Piece { color: next, name: crate::moves::piece_letter_kind(s[s.len() - 1]) }),
        )
    } else {
        cells2
    };
    let castling1 = if kind == PieceName::KING {
        clear_rights(m.castling, next)
    } else if kind == PieceName::ROOK {
        rook_rights(m.castling, next, st)
    } else {
        m.castling
    };
    let castling = if m.cells[en.row as int][en.col as int] == Some(
        Piece { color: opp, name: PieceName::ROOK },
    ) {
        rook_rights(castling1, opp, en)
    } else {
        castling1
    };
    let new_ep = if kind == PieceName::PAWN && abs_diff(st.row as int, en.row as int) == 2 {
        Some(Coordinates { row: ((st.row + en.row) / 2) as usize, col: st.col })
    } else {
        None
    };
    let halfmove: nat = if kind == PieceName::PAWN || has_x {
        0
    } else {
        sat_inc(m.halfmove)
    };
    let fullmove: nat = if next == Color::Black {
        sat_inc(m.fullmove)
    } else {
        m.fullmove
    };
    let end1 = if king_capture {
        crate::types::EndResult::Color(crate::types::color_tag(next))
    } else {
        m.end
    };
    BoardModel {
        cells: cells3,
        castling,
        en_passant: new_ep,
        halfmove,
        fullmove,
        end: end1,
        past: m.past,
    }
}

/// The board with its current position appended to the history, written with
/// `next` as the active color; a placement now seen for the third time draws
/// the board.
pub open spec fn record_position_spec(m: BoardModel, next: Color) -> BoardModel {
    let fen_now = crate::fen::fen_str(m, next);
    let plc = crate::text::split_char(fen_now, ' ')[0];
    let end2 = if count_matching(m.past, plc) >= 2 {
        crate::types::EndResult::Draw(true)
    } else {
        m.end
    };
    BoardModel {
        cells: m.cells,
        castling: m.castling,
        en_passant: m.en_passant,
        halfmove: m.halfmove,
        fullmove: m.fullmove,
        end: end2,
        past: m.past.push(fen_now),
    }
}

/// The board after a normal move: the move applied, then the new position
/// recorded against the repetition rule.
pub open spec fn apply_normal(m: BoardModel, s: Seq<char>, next: Color) -> BoardModel {
    record_position_spec(apply_normal_core(m, s, next), next)
}

/// The board a legal move leaves behind: castle or normal surgery, then the
/// new position recorded against the repetition rule.
pub open spec fn apply_move(m: BoardModel, s: Seq<char>, next: Color) -> BoardModel {
    if crate::moves::is_castle_short(s) {
        record_position_spec(apply_castle(m, false, next), next)
    } else if crate::moves::is_castle_long(s) {
        record_position_spec(apply_castle(m, true, next), next)
    } else {
        apply_normal(m, s, next)
    }
}

/// Replaces cell `(r, c)`, as `place` describes.
fn set_cell(board: &mut Vec<Vec<Option<Piece>>>, r: usize, c: usize, v: Option<Piece>)
    requires
        cells_wf(old(board)@.map_values(|row: Vec<Option<Piece>>| row@)),
        r < 8,
        c < 8,
    ensures
        final(board)@.map_values(|row: Vec<Option<Piece>>| row@) == place(
            old(board)@.map_values(|row: Vec<Option<Piece>>| row@),
            r as int,
            c as int,
            v,
        ),
        cells_wf(final(board)@.map_values(|row: Vec<Option<Piece>>| row@)),
{
    let ghost before = board@.map_values(|row: Vec<Option<Piece>>| row@);
    proof {
        assert(before[r as int] == board@[r as int]@);
        assert(before[r as int].len() == 8);
    }
    let row = &mut board[r];
    assert(row@.len() == 8);
    row.set(c, v);
    proof {
        assert(board@.map_values(|rw: Vec<Option<Piece>>| rw@) =~= place(
            before,
            r as int,
            c as int,
            v,
        )) by {
            assert(before[r as int].update(c as int, v) =~= board@[r as int]@);
        }
        assert(forall|i: int| 0 <= i < 8 ==> #[trigger] place(before, r as int, c as int, v)[
            i
        ].len() == 8);
    }
}

} // verus!


verus! {

/// Two character vectors, equal exactly when their contents are.
fn chars_eq(a: &Vec<char>, b: &Vec<char>) -> (r: bool)
    ensures
        r == (a@ == b@),
{
    if a.len() != b.len() {
        proof {
            assert(a@ != b@) by {
                if a@ == b@ {
                    assert(a@.len() == b@.len());
                }
            }
        }
        return false;
    }
    let mut i: usize = 0;
    while i < a.len()
        invariant
            i <= a@.len(),
            a@.len() == b@.len(),
            forall|j: int| 0 <= j < i ==> a@[j] == b@[j],
        decreases a@.len() - i,
    {
        if a[i] != b[i] {
            return false;
        }
        i = i + 1;
    }
    proof {
        assert(a@ =~= b@);
    }
    true
}

/// The placement field of a FEN text: everything before the first space.
fn first_field(s: &String) -> (r: Vec<char>)
    ensures
        r@ == crate::text::split_char(s@, ' ')[0],
{
    let chars = crate::text::str_to_chars(s.as_str());
    let mut fields = crate::text::split_vec(&chars, ' ');
    proof {
        crate::text::lemma_split_len(s@, ' ');
    }
    fields.remove(0)
}

impl ChessBoard {
    /// Relocates King and Rook for a castle and refreshes the metadata, as
    /// `apply_castle` describes.
    fn do_castle(&mut self, long: bool, next: Color)
        requires
            board_wf(old(self)@),
        ensures
            final(self)@ == apply_castle(old(self)@, long, next),
            board_wf(final(self)@),
    {
        let ghost m0 = self@;
        let hr: usize = match next {
            Color::White => 0,
            Color::Black => 7,
        };
        let king_new: usize = if long {
            2
        } else {
            6
        };
        let rook_old: usize = if long {
            0
        } else {
            7
        };
        let rook_new: usize = if long {
            3
        } else {
            5
        };
        set_cell(&mut self.board, hr, 4, None);
        set_cell(
            &mut self.board,
            hr,
            king_new,
            Some(Piece { color: next, name: PieceName::KING }),
        );
        set_cell(&mut self.board, hr, rook_old, None);
        set_cell(
            &mut self.board,
            hr,
            rook_new,
            Some(Piece { color: next, name: PieceName::ROOK }),
        );
        self.halfmove = sat_inc_exec(self.halfmove);
        self.castling = match next {
            Color::White => CastlingRights {
                white_king: false,
                white_queen: false,
                black_king: self.castling.black_king,
                black_queen: self.castling.black_queen,
            },
            Color::Black => CastlingRights {
                white_king: self.castling.white_king,
                white_queen: self.castling.white_queen,
                black_king: false,
                black_queen: false,
            },
        };
        if next == Color::Black {
            self.fullmove = sat_inc_exec(self.fullmove);
        }
        self.en_passant = None;
        proof {
            let mspec = apply_castle(m0, long, next);
            assert(self@.cells == mspec.cells);
            assert(self@ =~= mspec);
            assert(forall|rr: int| 0 <= rr < 8 ==> #[trigger] self@.cells[rr].len() == 8);
        }
    }

    /// Plays a legal normal move's board surgery and metadata updates, as
    /// `apply_normal_core` describes; the position is not yet recorded.
    #[verifier::rlimit(60)]
    fn do_normal(&mut self, chars: &Vec<char>, next: Color)
        requires
            board_wf(old(self)@),
            crate::moves::normal_grammar_ok(chars@),
            normal_move_ok(old(self)@, chars@, next),
        ensures
            final(self)@ == apply_normal_core(old(self)@, chars@, next),
            board_wf(final(self)@),
    {
        let ghost m0 = self@;
        let ghost ms = chars@;
        let parsed = match crate::moves::parse_normal_move(chars) {
            Ok(t) => t,
            Err(_) => {
                proof {
                    assert(false);
                }
                unreached()
            },
        };
        let (st, en, kind) = parsed;
        let has_x = crate::fen::contains_char(chars, 'x');
        let piece = Piece { color: next, name: kind };
        let opp = next.other();
        let dest = cell_get(&self.board, en.row, en.col);
        let king_capture = match dest {
            Some(p) => p.color == opp && p.name == PieceName::KING,
            None => false,
        };
        let ep_taken = kind == PieceName::PAWN && (match self.en_passant {
            Some(t) => t.row == en.row && t.col == en.col,
            None => false,
        });
        let ghost last = ms[ms.len() - 1];
        proof {
            if kind == PieceName::PAWN {
                assert(pawn_ok(m0, st, en, next, has_x, last));
            }
        }
        if ep_taken {
            let victim_row: usize = match next {
                Color::Black => {
                    assert(en.row + 1 < 8) by {
                        assert(pawn_ok(m0, st, en, next, has_x, last));
                    }
                    en.row + 1
                },
                Color::White => {
                    assert(en.row >= 1) by {
                        assert(pawn_ok(m0, st, en, next, has_x, last));
                    }
                    en.row - 1
                },
            };
            set_cell(&mut self.board, victim_row, en.col, None);
        }
        set_cell(&mut self.board, st.row, st.col, None);
        set_cell(&mut self.board, en.row, en.col, Some(piece));
        if kind == PieceName::KING {
            self.castling = match next {
                Color::White => CastlingRights {
                    white_king: false,
                    white_queen: false,
                    black_king: self.castling.black_king,
                    black_queen: self.castling.black_queen,
                },
                Color::Black => CastlingRights {
                    white_king: self.castling.white_king,
                    white_queen: self.castling.white_queen,
                    black_king: false,
                    black_queen: false,
                },
            };
        } else if kind == PieceName::ROOK {
            match next {
                Color::Black => {
                    if st.row == 7 && st.col == 0 {
                        self.castling = CastlingRights { black_queen: false, ..self.castling };
                    } else if st.row == 7 && st.col == 7 {
                        self.castling = CastlingRights { black_king: false, ..self.castling };
                    }
                },
                Color::White => {
                    if st.row == 0 && st.col == 0 {
                        self.castling = CastlingRights { white_queen: false, ..self.castling };
                    } else if st.row == 0 && st.col == 7 {
                        self.castling = CastlingRights { white_king: false, ..self.castling };
                    }
                },
            }
        }
        let captured_rook = match dest {
            Some(p) => p.color == opp && p.name == PieceName::ROOK,
            None => false,
        };
        if captured_rook {
            match opp {
                Color::Black => {
                    if en.row == 7 && en.col == 0 {
                        self.castling = CastlingRights { black_queen: false, ..self.castling };
                    } else if en.row == 7 && en.col == 7 {
                        self.castling = CastlingRights { black_king: false, ..self.castling };
                    }
                },
                Color::White => {
                    if en.row == 0 && en.col == 0 {
                        self.castling = CastlingRights { white_queen: false, ..self.castling };
                    } else if en.row == 0 && en.col == 7 {
                        self.castling = CastlingRights { white_king: false, ..self.castling };
                    }
                },
            }
        }
        if kind == PieceName::PAWN && abs_diff_exec(st.row, en.row) == 2 {
            self.en_passant = Some(Coordinates { row: (st.row + en.row) / 2, col: st.col });
        } else {
            self.en_passant = None;
        }
        if kind == PieceName::PAWN || has_x {
            self.halfmove = 0;
        } else {
            self.halfmove = sat_inc_exec(self.halfmove);
        }
        let promo = if kind == PieceName::PAWN {
            crate::moves::piece_letter_of(chars[chars.len() - 1])
        } else {
            None
        };
        match promo {
            Some(promoted_name) => {
                set_cell(
                    &mut self.board,
                    en.row,
                    en.col,
                    Some(Piece { color: next, name: promoted_name }),
                );
            },
            None => {},
        }
        if king_capture {
            self.end = crate::types::EndResult::Color(next.tag());
        }
        if next == Color::Black {
            self.fullmove = sat_inc_exec(self.fullmove);
        }
        proof {
            let mspec = apply_normal_core(m0, ms, next);
            assert(self@.cells == mspec.cells);
            assert(self@.castling == mspec.castling);
            assert(self@.en_passant == mspec.en_passant);
            assert(self@.halfmove == mspec.halfmove);
            assert(self@.fullmove == mspec.fullmove);
            assert(self@.end == mspec.end);
            assert(self@.past == mspec.past);
            assert(self@ =~= mspec);
            assert(forall|rr: int| 0 <= rr < 8 ==> #[trigger] self@.cells[rr].len() == 8);
        }
    }

    /// Appends the current position to the history and applies the
    /// repetition rule, as `record_position_spec` describes.
    #[verifier::loop_isolation(false)]
    fn record_position(&mut self, next: Color)
        requires
            board_wf(old(self)@),
        ensures
            final(self)@ == record_position_spec(old(self)@, next),
            board_wf(final(self)@),
    {
        let ghost m0 = self@;
        let fen_string = match self.to_fen(next) {
            Ok(f) => f,
            Err(_) => {
                proof {
                    assert(false);
                }
                unreached()
            },
        };
        let plc = first_field(&fen_string);
        let ghost mpast = m0.past;
        let mut count: usize = 0;
        let mut i: usize = 0;
        while i < self.past.len()
            invariant
                i <= self.past@.len(),
                count == count_matching(mpast.take(i as int), plc@),
                count <= i,
            decreases self.past@.len() - i,
        {
            let pf = first_field(&self.past[i]);
            let same = chars_eq(&pf, &plc);
            proof {
                assert(mpast.take(i as int + 1).drop_last() =~= mpast.take(i as int));
                assert(mpast.take(i as int + 1).last() == mpast[i as int]);
                assert(mpast[i as int] == self.past@[i as int]@);
            }
            if same {
                count = count + 1;
            }
            i = i + 1;
        }
        proof {
            assert(mpast.take(mpast.len() as int) =~= mpast);
        }
        if count >= 2 {
            self.end = crate::types::EndResult::Draw(true);
        }
        self.past.push(fen_string);
        proof {
            let mspec = record_position_spec(m0, next);
            assert(self@.past =~= mspec.past);
            assert(self@ =~= mspec);
        }
    }

    /// Validates the move as `validate_move` does and, when it is legal,
    /// plays it, leaving the board `apply_move` describes; on any error the
    /// board is untouched.
    pub fn make_move(&mut self, alg: &str, next: Color) -> (r: Result<(), crate::types::ChessError>)
        requires
            board_wf(old(self)@),
        ensures
            match r {
                Ok(()) => crate::moves::grammar_ok(alg@) && old(self)@.end
                    == crate::types::EndResult::Undecided(true) && valid_move(
                    old(self)@,
                    alg@,
                    next,
                ) && final(self)@ == apply_move(old(self)@, alg@, next) && board_wf(final(self)@),
                Err(e) => *final(self) == *old(self) && ((e == crate::types::ChessError::FenError(
                    crate::types::FenError::InvalidFormat,
                ) && !crate::moves::grammar_ok(alg@)) || (e == crate::types::ChessError::MoveError(
                    crate::types::MoveError::GameOver,
                ) && crate::moves::grammar_ok(alg@) && old(self)@.end
                    != crate::types::EndResult::Undecided(true)) || (e
                    == crate::types::ChessError::MoveError(crate::types::MoveError::InvalidMove)
                    && crate::moves::grammar_ok(alg@) && old(self)@.end
                    == crate::types::EndResult::Undecided(true) && !valid_move(
                    old(self)@,
                    alg@,
                    next,
                ))),
            },
    {
        let ghost ms = alg@;
        let ghost m0 = self@;
        match self.validate_move(alg, next) {
            Ok(v) => {
                if !v {
                    return Err(crate::types::ChessError::MoveError(
                        crate::types::MoveError::InvalidMove,
                    ));
                }
            },
            Err(e) => {
                return Err(e);
            },
        }
        let chars = crate::text::str_to_chars(alg);
        let is_short = chars.len() == 3 && chars[0] == 'O' && chars[1] == '-' && chars[2] == 'O';
        let is_long = chars.len() == 5 && chars[0] == 'O' && chars[1] == '-' && chars[2] == 'O'
            && chars[3] == '-' && chars[4] == 'O';
        if is_short || is_long {
            self.do_castle(is_long, next);
            self.record_position(next);
            proof {
                assert(self@ == apply_move(m0, ms, next));
            }
            return Ok(());
        }
        self.do_normal(&chars, next);
        self.record_position(next);
        proof {
            assert(self@ == apply_move(m0, ms, next));
        }
        Ok(())
    }
}

} // verus!

verus! {

/// After any accepted move, the en-passant target is the square a pawn
/// skipped in a double advance, and nothing otherwise: a legal pawn move of
/// two rows leaves exactly the skipped square behind it, and every other
/// accepted move, castles included, clears the target.
pub proof fn lemma_en_passant_target(m: BoardModel, s: Seq<char>, next: Color)
    requires
        crate::moves::grammar_ok(s),
        valid_move(m, s, next),
    ensures
        ({
            let m2 = apply_move(m, s, next);
            let st = crate::moves::move_start(s);
            let en = crate::moves::move_end(s);
            if !crate::moves::is_castle_short(s) && !crate::moves::is_castle_long(s)
                && crate::moves::move_kind(s) == PieceName::PAWN && abs_diff(
                st.row as int,
                en.row as int,
            ) == 2 {
                m2.en_passant == Some(
                    Coordinates { row: ((st.row + en.row) / 2) as usize, col: st.col },
                )
            } else {
                m2.en_passant is None
            }
        }),
{
}

/// A castle is accepted exactly when King and Rook still stand on their
/// original squares, every cell between them is empty, and neither the
/// King's square nor either square of its path is attacked by the opponent.
pub proof fn lemma_castle_requires_clear_path(m: BoardModel, long: bool, next: Color)
    ensures
        ({
            let hr = home_row(next);
            let opp = other_color(next);
            let rook_col: int = if long { 0 } else { 7 };
            castle_ok(m, long, next) <==> {
                &&& m.cells[hr][rook_col] == Some(Piece { color: next, name: PieceName::ROOK })
                &&& m.cells[hr][4] == Some(Piece { color: next, name: PieceName::KING })
                &&& (if long {
                    m.cells[hr][1] is None && m.cells[hr][2] is None && m.cells[hr][3] is None
                } else {
                    m.cells[hr][5] is None && m.cells[hr][6] is None
                })
                &&& !attacked(m.cells, hr, 4, opp)
                &&& (if long {
                    !attacked(m.cells, hr, 2, opp) && !attacked(m.cells, hr, 3, opp)
                } else {
                    !attacked(m.cells, hr, 5, opp) && !attacked(m.cells, hr, 6, opp)
                })
            }
        }),
{
}

/// An accepted en-passant capture removes the passed pawn behind the target
/// square, not anything on the (empty) target square itself, lands the
/// mover's pawn on the target, empties the start square, and touches no
/// other cell.
pub proof fn lemma_en_passant_capture(m: BoardModel, s: Seq<char>, next: Color)
    requires
        crate::moves::grammar_ok(s),
        !crate::moves::is_castle_short(s),
        !crate::moves::is_castle_long(s),
        valid_move(m, s, next),
        crate::moves::move_kind(s) == PieceName::PAWN,
        crate::moves::move_has_x(s),
        m.en_passant == Some(crate::moves::move_end(s)),
        m.cells[crate::moves::move_end(s).row as int][crate::moves::move_end(s).col as int] is None,
        !crate::moves::is_piece_letter(s[s.len() - 1]),
        board_wf(m),
    ensures
        ({
            let m2 = apply_move(m, s, next);
            let en = crate::moves::move_end(s);
            let victim_row: int = if next == Color::Black {
                en.row + 1
            } else {
                en.row - 1
            };
            let st = crate::moves::move_start(s);
            &&& m2.cells[victim_row][en.col as int] is None
            &&& m2.cells[en.row as int][en.col as int] == Some(
                Piece { color: next, name: PieceName::PAWN },
            )
            &&& m2.cells[st.row as int][st.col as int] is None
            &&& forall|r: int, c: int|
                0 <= r < 8 && 0 <= c < 8 && !(r == victim_row && c == en.col) && !(r == en.row
                    && c == en.col) && !(r == st.row && c == st.col)
                    ==> #[trigger] m2.cells[r][c] == m.cells[r][c]
        }),
{
    let st = crate::moves::move_start(s);
    let en = crate::moves::move_end(s);
    assert(pawn_ok(m, st, en, next, true, s[s.len() - 1]));
    assert(abs_diff(st.col as int, en.col as int) == 1);
    assert(st.col != en.col);
    let victim_row: int = if next == Color::Black {
        en.row + 1
    } else {
        en.row - 1
    };
    assert(0 <= victim_row < 8);
    assert(victim_row != en.row as int);
    let piece = Piece { color: next, name: PieceName::PAWN };
    let cells1 = place(m.cells, victim_row, en.col as int, None);
    let x1 = place(cells1, st.row as int, st.col as int, None);
    let cells2 = place(x1, en.row as int, en.col as int, Some(piece));
    let m2 = apply_move(m, s, next);
    assert(m2.cells == cells2);
    assert(cells1[victim_row][en.col as int] is None);
    assert(x1[victim_row][en.col as int] is None) by {
        if st.row as int == victim_row {
            assert(x1[victim_row] == cells1[victim_row].update(st.col as int, None));
        } else {
            assert(x1[victim_row] == cells1[victim_row]);
        }
    }
    assert(cells2[victim_row][en.col as int] is None) by {
        assert(cells2[victim_row] == x1[victim_row]);
    }
    assert(cells2[en.row as int][en.col as int] == Some(piece));
    assert(st.row != en.row || st.col != en.col);
    assert(cells2[st.row as int][st.col as int] is None) by {
        if st.row as int == en.row as int {
            assert(cells2[st.row as int] == x1[st.row as int].update(en.col as int, Some(piece)));
        } else {
            assert(cells2[st.row as int] == x1[st.row as int]);
        }
    }
    assert forall|r: int, c: int|
        0 <= r < 8 && 0 <= c < 8 && !(r == victim_row && c == en.col) && !(r == en.row && c
            == en.col) && !(r == st.row && c == st.col) implies #[trigger] m2.cells[r][c]
        == m.cells[r][c] by {
        assert(cells1[r][c] == m.cells[r][c]);
        assert(x1[r][c] == cells1[r][c]);
        assert(cells2[r][c] == x1[r][c]);
    }
}

/// Capturing the opponent's King ends the board at once with a win for the
/// capturing color; no notion of check is involved. The one exception is a
/// move that at the same time puts the placement on the board for the third
/// time, which the repetition rule turns into a draw instead.
pub proof fn lemma_king_capture_wins(m: BoardModel, s: Seq<char>, next: Color)
    requires
        crate::moves::grammar_ok(s),
        !crate::moves::is_castle_short(s),
        !crate::moves::is_castle_long(s),
        valid_move(m, s, next),
        m.cells[crate::moves::move_end(s).row as int][crate::moves::move_end(s).col as int]
            == Some(Piece { color: other_color(next), name: PieceName::KING }),
    ensures
        ({
            let mid = apply_normal_core(m, s, next);
            let plc = crate::text::split_char(crate::fen::fen_str(mid, next), ' ')[0];
            count_matching(m.past, plc) < 2 ==> apply_move(m, s, next).end
                == crate::types::EndResult::Color(crate::types::color_tag(next))
        }),
{
}

} // verus!
