//! The meta-game: a 3-by-3 grid of independent chess boards with one global
//! turn that alternates after every accepted move, wherever it was played.

use vstd::prelude::*;
use vstd::string::StrSliceExecFns;

use crate::board::BoardModel;
use crate::board::ChessBoard;
use crate::board::board_wf;
use crate::fen::color_char;
use crate::fen::fen_str;
use crate::fen::join_char;
use crate::fen::lemma_join_push;
use crate::fen::parse_fen_spec;
use crate::rules::apply_move;
use crate::rules::valid_move;
use crate::text::has_char;
use crate::text::split_char;
use crate::text::split_vec;
use crate::text::str_to_chars;
use crate::types::ChessError;
use crate::types::Color;
use crate::types::Coordinates;
use crate::types::EndResult;
use crate::types::FenError;
use crate::types::GameError;
use crate::types::MoveError;
use crate::types::TicError;

verus! {

/// The mathematical model of the meta-game.
#[verifier::ext_equal]
pub struct TicModel {
    pub boards: Seq<Seq<BoardModel>>,
    pub next: Color,
}

/// A well-formed meta-game: a 3-by-3 grid of well-formed boards.
pub open spec fn tic_wf(t: TicModel) -> bool {
    &&& t.boards.len() == 3
    &&& forall|i: int| 0 <= i < 3 ==> #[trigger] t.boards[i].len() == 3
    &&& forall|i: int, j: int| 0 <= i < 3 && 0 <= j < 3 ==> board_wf(#[trigger] t.boards[i][j])
}

/// The 3-by-3 grid of chess boards and the color to move next.
#[derive(Debug, Clone, PartialEq, Eq)]
pub struct TicTacToe {
    pub chesses: Vec<Vec<ChessBoard>>,
    pub next: Color,
}

impl View for TicTacToe {
    type V = TicModel;

    open spec fn view(&self) -> TicModel {
        TicModel {
            boards: self.chesses@.map_values(
                |row: Vec<ChessBoard>| row@.map_values(|b: ChessBoard| b@),
            ),
            next: self.next,
        }
    }
}

/// The meta FEN text: the nine boards' FEN texts in row-major order joined
/// by a backslash, then `+` and the turn letter. Every board is written with
/// the global turn as its active color.
pub open spec fn meta_fen_str(t: TicModel) -> Seq<char> {
    let flat = Seq::new(9, |k: int| fen_str(t.boards[k / 3][k % 3], t.next));
    join_char(flat, '\\') + seq!['+', color_char(t.next)]
}

/// The boards a sequence of board texts denotes, stopping at the first text
/// that fails to parse.
pub open spec fn parse_boards_spec(parts: Seq<Seq<char>>) -> Result<Seq<BoardModel>, FenError>
    decreases parts.len(),
{
    if parts.len() == 0 {
        Ok(Seq::<BoardModel>::empty())
    } else {
        match parse_fen_spec(parts[0]) {
            Err(e) => Err(e),
            Ok(b) => match parse_boards_spec(parts.skip(1)) {
                Err(e) => Err(e),
                Ok(rest) => Ok(seq![b] + rest),
            },
        }
    }
}

/// What parsing a meta FEN text accepts and denotes: exactly two `+`-parts,
/// exactly nine board texts, every board readable, and a one-letter turn.
pub open spec fn parse_meta_spec(s: Seq<char>) -> Result<TicModel, FenError> {
    let parts = split_char(s, '+');
    if parts.len() != 2 {
        Err(FenError::InvalidFormat)
    } else {
        let bparts = split_char(parts[0], '\\');
        if bparts.len() != 9 {
            Err(FenError::InvalidFormat)
        } else {
            match parse_boards_spec(bparts) {
                Err(e) => Err(e),
                Ok(flat) => {
                    if !crate::fen::is_color_field(parts[1]) {
                        Err(FenError::InvalidFormat)
                    } else {
                        Ok(TicModel {
                            boards: Seq::new(3, |i: int| Seq::new(3, |j: int| flat[3 * i + j])),
                            next: if parts[1][0] == 'w' {
                                Color::White
                            } else {
                                Color::Black
                            },
                        })
                    }
                },
            }
        }
    }
}

/// When every board text parses, the whole sequence parses to those boards.
proof fn lemma_parse_boards_ok(parts: Seq<Seq<char>>)
    requires
        forall|x: int| 0 <= x < parts.len() ==> parse_fen_spec(#[trigger] parts[x]) is Ok,
    ensures
        parse_boards_spec(parts) == Ok::<Seq<BoardModel>, FenError>(
            Seq::new(parts.len(), |x: int| parse_fen_spec(parts[x])->Ok_0),
        ),
    decreases parts.len(),
{
    if parts.len() == 0 {
        assert(Seq::new(0, |x: int| parse_fen_spec(parts[x])->Ok_0) =~= Seq::<
            BoardModel,
        >::empty());
    } else {
        assert(forall|x: int| 0 <= x < parts.skip(1).len() ==> parts.skip(1)[x] == parts[x + 1]);
        lemma_parse_boards_ok(parts.skip(1));
        assert(seq![parse_fen_spec(parts[0])->Ok_0] + Seq::new(
            parts.skip(1).len(),
            |x: int| parse_fen_spec(parts.skip(1)[x])->Ok_0,
        ) =~= Seq::new(parts.len(), |x: int| parse_fen_spec(parts[x])->Ok_0));
    }
}

/// When the first unreadable board text sits at `k`, the whole sequence
/// fails with that text's error.
proof fn lemma_parse_boards_err(parts: Seq<Seq<char>>, k: int)
    requires
        0 <= k < parts.len(),
        forall|x: int| 0 <= x < k ==> parse_fen_spec(#[trigger] parts[x]) is Ok,
        parse_fen_spec(parts[k]) is Err,
    ensures
        parse_boards_spec(parts) == Err::<Seq<BoardModel>, FenError>(
            parse_fen_spec(parts[k])->Err_0,
        ),
    decreases parts.len(),
{
    if k == 0 {
    } else {
        assert(forall|x: int| 0 <= x < parts.skip(1).len() ==> parts.skip(1)[x] == parts[x + 1]);
        lemma_parse_boards_err(parts.skip(1), k - 1);
    }
}

impl Default for TicTacToe {
    /// Nine standard initial boards, White to move.
    fn default() -> (r: TicTacToe)
        ensures
            r@.next == Color::White,
            tic_wf(r@),
            forall|i: int, j: int|
                0 <= i < 3 && 0 <= j < 3 ==> #[trigger] r@.boards[i][j]
                    == crate::board::initial_model(),
    {
        let mut chesses: Vec<Vec<ChessBoard>> = Vec::new();
        let mut i: usize = 0;
        while i < 3
            invariant
                i <= 3,
                chesses@.len() == i,
                forall|a: int| #![auto] 0 <= a < i ==> chesses@[a]@.len() == 3 && forall|b: int|
                    0 <= b < 3 ==> chesses@[a]@[b]@ == crate::board::initial_model(),
            decreases 3 - i,
        {
            let mut row: Vec<ChessBoard> = Vec::new();
            row.push(ChessBoard::default());
            row.push(ChessBoard::default());
            row.push(ChessBoard::default());
            chesses.push(row);
            i = i + 1;
        }
        let r = TicTacToe { chesses, next: Color::White };
        proof {
            assert(forall|a: int| 0 <= a < 3 ==> #[trigger] r@.boards[a].len() == 3);
            assert(forall|a: int, b: int|
                0 <= a < 3 && 0 <= b < 3 ==> #[trigger] r@.boards[a][b]
                    == crate::board::initial_model());
        }
        r
    }
}

impl TicTacToe {
    /// The addressed board; an index outside the grid is refused. The first
    /// coordinate picks the column of the grid, the second the row, matching
    /// how moves address it.
    pub fn get_board(&self, board: Coordinates) -> (r: Result<&ChessBoard, TicError>)
        requires
            tic_wf(self@),
        ensures
            match r {
                Ok(b) => board.col <= 2 && board.row <= 2 && b@ == self@.boards[board.col as int][board.row as int],
                Err(e) => (board.col > 2 || board.row > 2) && e == TicError::InvalidCoords,
            },
    {
        if board.col > 2 || board.row > 2 {
            return Err(TicError::InvalidCoords);
        }
        proof {
            assert(self@.boards[board.col as int].len() == 3);
            assert(self@.boards[board.col as int] == self.chesses@[board.col as int]@.map_values(
                |b: ChessBoard| b@,
            ));
        }
        let row = &self.chesses[board.col];
        Ok(&row[board.row])
    }

    /// Decides whether the move is legal on the addressed board for the
    /// color whose global turn it is, as the board's own `validate_move`
    /// does; an index outside the grid is refused.
    pub fn validate_move(&self, board: Coordinates, alg: &str) -> (r: Result<bool, GameError>)
        requires
            tic_wf(self@),
        ensures
            match r {
                Ok(v) => board.col <= 2 && board.row <= 2 && crate::moves::grammar_ok(alg@)
                    && self@.boards[board.col as int][board.row as int].end
                    == EndResult::Undecided(true) && v == valid_move(
                    self@.boards[board.col as int][board.row as int],
                    alg@,
                    self@.next,
                ),
                Err(GameError::Tic(e)) => (board.col > 2 || board.row > 2) && e
                    == TicError::InvalidCoords,
                Err(GameError::Chess(e)) => board.col <= 2 && board.row <= 2 && ((e
                    == ChessError::FenError(FenError::InvalidFormat) && !crate::moves::grammar_ok(
                    alg@,
                )) || (e == ChessError::MoveError(MoveError::GameOver) && crate::moves::grammar_ok(
                    alg@,
                ) && self@.boards[board.col as int][board.row as int].end != EndResult::Undecided(
                    true,
                ))),
            },
    {
        let b = match self.get_board(board) {
            Ok(b) => b,
            Err(e) => {
                return Err(GameError::Tic(e));
            },
        };
        match b.validate_move(alg, self.next) {
            Ok(v) => Ok(v),
            Err(e) => Err(GameError::Chess(e)),
        }
    }

    /// Plays the move on the addressed board for the color whose turn it is,
    /// then flips the global turn; on any error nothing changes.
    pub fn make_move(&mut self, board: Coordinates, alg: &str) -> (r: Result<(), GameError>)
        requires
            tic_wf(old(self)@),
        ensures
            tic_wf(final(self)@),
            match r {
                Ok(()) => board.col <= 2 && board.row <= 2 && crate::moves::grammar_ok(alg@)
                    && old(self)@.boards[board.col as int][board.row as int].end
                    == EndResult::Undecided(true) && valid_move(
                    old(self)@.boards[board.col as int][board.row as int],
                    alg@,
                    old(self)@.next,
                ) && final(self)@.next == crate::types::other_color(old(self)@.next)
                    && final(self)@.boards == old(self)@.boards.update(
                    board.col as int,
                    old(self)@.boards[board.col as int].update(
                        board.row as int,
                        apply_move(
                            old(self)@.boards[board.col as int][board.row as int],
                            alg@,
                            old(self)@.next,
                        ),
                    ),
                ),
                Err(GameError::Tic(e)) => final(self)@ == old(self)@ && (board.col > 2
                    || board.row > 2) && e == TicError::InvalidCoords,
                Err(GameError::Chess(e)) => final(self)@ == old(self)@ && board.col <= 2
                    && board.row <= 2 && ({
                    let m = old(self)@.boards[board.col as int][board.row as int];
                    ||| (e == ChessError::FenError(FenError::InvalidFormat)
                        && !crate::moves::grammar_ok(alg@))
                    ||| (e == ChessError::MoveError(MoveError::GameOver)
                        && crate::moves::grammar_ok(alg@) && m.end != EndResult::Undecided(true))
                    ||| (e == ChessError::MoveError(MoveError::InvalidMove)
                        && crate::moves::grammar_ok(alg@) && m.end == EndResult::Undecided(true)
                        && !valid_move(m, alg@, old(self)@.next))
                }),
            },
    {
        let ghost t0 = self@;
        if board.col > 2 || board.row > 2 {
            return Err(GameError::Tic(TicError::InvalidCoords));
        }
        let next = self.next;
        let ghost oldboards = self@.boards;
        proof {
            assert(t0.boards[board.col as int].len() == 3);
            assert(board_wf(t0.boards[board.col as int][board.row as int]));
        }
        let row = &mut self.chesses[board.col];
        proof {
            assert(row@.map_values(|b: ChessBoard| b@) == t0.boards[board.col as int]);
            assert(row@.len() == 3);
            assert(row@[board.row as int]@ == t0.boards[board.col as int][board.row as int]);
        }
        let b = &mut row[board.row];
        let res = b.make_move(alg, next);
        match res {
            Ok(()) => {
                proof {
                    let newb = apply_move(
                        oldboards[board.col as int][board.row as int],
                        alg@,
                        next,
                    );
                    assert(self@.boards[board.col as int] =~= oldboards[board.col as int].update(
                        board.row as int,
                        newb,
                    ));
                    assert(forall|i: int|
                        0 <= i < 3 && i != board.col ==> self@.boards[i] =~= #[trigger] oldboards[
                            i
                        ]);
                    assert(self@.boards =~= oldboards.update(
                        board.col as int,
                        oldboards[board.col as int].update(board.row as int, newb),
                    ));
                }
                self.next = match self.next {
                    Color::White => Color::Black,
                    Color::Black => Color::White,
                };
                proof {
                    assert(forall|i: int| 0 <= i < 3 ==> #[trigger] self@.boards[i].len() == 3);
                    assert(forall|i: int, j: int|
                        0 <= i < 3 && 0 <= j < 3 ==> board_wf(#[trigger] self@.boards[i][j]));
                }
                Ok(())
            },
            Err(e) => {
                proof {
                    assert(self@.boards[board.col as int] =~= oldboards[board.col as int]);
                    assert(forall|i: int|
                        0 <= i < 3 && i != board.col ==> self@.boards[i] =~= #[trigger] oldboards[
                            i
                        ]);
                    assert(self@.boards =~= oldboards);
                    assert(self@ =~= t0);
                }
                Err(GameError::Chess(e))
            },
        }
    }

    /// Writes the whole meta-game as one text, as `meta_fen_str` describes.
    #[verifier::loop_isolation(false)]
    pub fn to_fen(&self) -> (r: Result<String, GameError>)
        requires
            tic_wf(self@),
        ensures
            r is Ok,
            r matches Ok(s) ==> s@ == meta_fen_str(self@),
    {
        let ghost flat = Seq::new(9, |k: int| fen_str(self@.boards[k / 3][k % 3], self@.next));
        let mut out: Vec<char> = Vec::new();
        let mut k: usize = 0;
        proof {
            assert(flat.take(0) =~= Seq::<Seq<char>>::empty());
            assert(out@ =~= join_char(flat.take(0), '\\'));
        }
        while k < 9
            invariant
                k <= 9,
                out@ == join_char(flat.take(k as int), '\\'),
            decreases 9 - k,
        {
            let ghost joined_prev = join_char(flat.take(k as int), '\\');
            if k > 0 {
                out.push('\\');
            }
            let i = k / 3;
            let j = k % 3;
            proof {
                assert(i < 3 && j < 3);
                assert(self@.boards[i as int].len() == 3);
                assert(self@.boards[i as int] == self.chesses@[i as int]@.map_values(
                    |bb: ChessBoard| bb@,
                ));
            }
            let row = &self.chesses[i];
            let b = &row[j];
            proof {
                assert(b@ == self@.boards[k as int / 3][k as int % 3]);
                assert(board_wf(b@));
            }
            let fen = match b.to_fen(self.next) {
                Ok(f) => f,
                Err(_) => {
                    proof {
                        assert(false);
                    }
                    unreached()
                },
            };
            let fen_chars = str_to_chars(fen.as_str());
            let mut fc = fen_chars;
            out.append(&mut fc);
            k = k + 1;
            proof {
                let this = flat[k as int - 1];
                assert(flat.take(k as int) =~= flat.take(k as int - 1).push(this));
                lemma_join_push(flat.take(k as int - 1), this, '\\');
                if k == 1 {
                    assert(joined_prev =~= Seq::<char>::empty());
                    assert(out@ =~= join_char(flat.take(k as int), '\\'));
                } else {
                    assert(out@ =~= joined_prev + seq!['\\'] + this);
                    assert(out@ =~= join_char(flat.take(k as int), '\\'));
                }
            }
        }
        proof {
            assert(flat.take(9) =~= flat);
        }
        out.push('+');
        match self.next {
            Color::White => out.push('w'),
            Color::Black => out.push('b'),
        }
        proof {
            assert(out@ =~= join_char(flat, '\\') + seq!['+', color_char(self@.next)]);
        }
        Ok(crate::text::chars_to_string(&out))
    }

    /// Reads a meta-game from its text, as `parse_meta_spec` describes.
    #[verifier::loop_isolation(false)]
    pub fn from_fen(input: &str) -> (r: Result<TicTacToe, FenError>)
        ensures
            match r {
                Ok(t) => parse_meta_spec(input@) == Ok::<TicModel, FenError>(t@) && tic_wf(t@),
                Err(e) => parse_meta_spec(input@) == Err::<TicModel, FenError>(e),
            },
    {
        let chars = str_to_chars(input);
        let parts = split_vec(&chars, '+');
        let ghost sparts = split_char(input@, '+');
        if parts.len() != 2 {
            return Err(FenError::InvalidFormat);
        }
        let bparts = split_vec(&parts[0], '\\');
        let ghost sbparts = split_char(sparts[0], '\\');
        assert(parts@[0]@ == sparts[0]);
        if bparts.len() != 9 {
            return Err(FenError::InvalidFormat);
        }
        let mut flat: Vec<ChessBoard> = Vec::new();
        let mut k: usize = 0;
        while k < 9
            invariant
                k <= 9,
                flat@.len() == k,
                forall|x: int| #![auto] 0 <= x < k ==> parse_fen_spec(sbparts[x]) == Ok::<
                    BoardModel,
                    FenError,
                >(flat@[x]@) && board_wf(flat@[x]@),
            decreases 9 - k,
        {
            let part = &bparts[k];
            assert(part@ == sbparts[k as int]);
            let part_str = crate::text::chars_to_string(part);
            match ChessBoard::parse_fen(part_str.as_str()) {
                Ok(b) => {
                    flat.push(b);
                },
                Err(e) => {
                    proof {
                        lemma_parse_boards_err(sbparts, k as int);
                    }
                    return Err(e);
                },
            }
            k = k + 1;
        }
        proof {
            lemma_parse_boards_ok(sbparts);
        }
        let p1 = &parts[1];
        assert(p1@ == sparts[1]);
        if !(p1.len() == 1 && (p1[0] == 'w' || p1[0] == 'b')) {
            return Err(FenError::InvalidFormat);
        }
        let next = if p1[0] == 'w' {
            Color::White
        } else {
            Color::Black
        };
        let mut chesses: Vec<Vec<ChessBoard>> = Vec::new();
        let ghost flatv = flat@.map_values(|b: ChessBoard| b@);
        let mut i: usize = 0;
        proof {
            assert(flat@.len() == 9);
        }
        let mut rest = flat;
        while i < 3
            invariant
                i <= 3,
                chesses@.len() == i,
                rest@.len() == 9 - 3 * i,
                forall|x: int| #![auto] 0 <= x < rest@.len() ==> rest@[x]@ == flatv[3 * i + x],
                forall|a: int| #![auto] 0 <= a < i ==> chesses@[a]@.len() == 3 && forall|b: int|
                    0 <= b < 3 ==> chesses@[a]@[b]@ == flatv[3 * a + b],
            decreases 3 - i,
        {
            let mut row: Vec<ChessBoard> = Vec::new();
            let mut j: usize = 0;
            while j < 3
                invariant
                    j <= 3,
                    i < 3,
                    row@.len() == j,
                    rest@.len() == 9 - 3 * i - j,
                    forall|x: int| #![auto] 0 <= x < rest@.len() ==> rest@[x]@ == flatv[3 * i + j
                        + x],
                    forall|b: int| #![auto] 0 <= b < j ==> row@[b]@ == flatv[3 * i + b],
                decreases 3 - j,
            {
                let b = rest.remove(0);
                row.push(b);
                j = j + 1;
            }
            chesses.push(row);
            i = i + 1;
        }
        let t = TicTacToe { chesses, next };
        proof {
            let m = parse_meta_spec(input@)->Ok_0;
            assert(t@.boards =~= m.boards) by {
                assert(forall|a: int, b: int|
                    0 <= a < 3 && 0 <= b < 3 ==> #[trigger] t@.boards[a][b] == flatv[3 * a + b]);
                assert(forall|a: int| 0 <= a < 3 ==> #[trigger] t@.boards[a].len() == 3);
                assert(forall|a: int, b: int|
                    0 <= a < 3 && 0 <= b < 3 ==> #[trigger] m.boards[a][b] == flatv[3 * a + b]);
                assert(forall|a: int| 0 <= a < 3 ==> #[trigger] t@.boards[a] =~= m.boards[a]);
            }
            assert(t@ =~= m);
            assert(tic_wf(t@)) by {
                assert(forall|a: int, b: int|
                    0 <= a < 3 && 0 <= b < 3 ==> board_wf(#[trigger] t@.boards[a][b]));
            }
        }
        Ok(t)
    }
}

} // verus!

verus! {

/// Whether two boards agree on every field FEN captures: the placement, the
/// castling rights, the en-passant target and both clocks.
pub open spec fn fen_fields_match(a: BoardModel, b: BoardModel) -> bool {
    &&& a.cells == b.cells
    &&& a.castling == b.castling
    &&& a.en_passant == b.en_passant
    &&& a.halfmove == b.halfmove
    &&& a.fullmove == b.fullmove
}

/// Formatting a well-formed meta-game and parsing the text back recovers
/// the turn and, on all nine boards, every field FEN captures.
pub proof fn lemma_meta_round_trip(t: TicModel)
    requires
        tic_wf(t),
    ensures
        parse_meta_spec(meta_fen_str(t)) is Ok,
        ({
            let r = parse_meta_spec(meta_fen_str(t))->Ok_0;
            &&& r.next == t.next
            &&& r.boards.len() == 3
            &&& forall|i: int| 0 <= i < 3 ==> (#[trigger] r.boards[i]).len() == 3
            &&& forall|i: int, j: int|
                0 <= i < 3 && 0 <= j < 3 ==> fen_fields_match(
                    #[trigger] r.boards[i][j],
                    t.boards[i][j],
                )
        }),
{
    let flat = Seq::new(9, |k: int| fen_str(t.boards[k / 3][k % 3], t.next));
    let joined = join_char(flat, '\\');
    let cc = seq![color_char(t.next)];
    let s = meta_fen_str(t);
    assert(s =~= joined + seq!['+'] + cc);
    assert forall|k: int| 0 <= k < 9 implies !has_char(#[trigger] flat[k], '\\') && !has_char(
        flat[k],
        '+',
    ) by {
        crate::fen::lemma_fen_str_clean(t.boards[k / 3][k % 3], t.next);
    }
    crate::fen::lemma_join_clean(flat, '\\', '+');
    crate::text::lemma_split_sep(joined, cc, '+');
    assert(!has_char(cc, '+')) by {
        assert(forall|i: int| 0 <= i < 1 ==> cc[i] == color_char(t.next));
    }
    crate::text::lemma_split_no_sep(cc, '+');
    assert(split_char(s, '+') == seq![joined] + seq![cc]);
    assert(seq![joined] + seq![cc] =~= seq![joined, cc]);
    let parts = split_char(s, '+');
    assert(parts.len() == 2);
    assert(parts[0] == joined && parts[1] == cc);
    crate::fen::lemma_split_join(flat, '\\');
    assert(split_char(parts[0], '\\') == flat);
    assert forall|k: int| 0 <= k < 9 implies parse_fen_spec(#[trigger] flat[k]) is Ok by {
        crate::fen::lemma_fen_round_trip(t.boards[k / 3][k % 3], t.next);
    }
    lemma_parse_boards_ok(flat);
    let parsed_flat = Seq::new(flat.len(), |x: int| parse_fen_spec(flat[x])->Ok_0);
    assert(crate::fen::is_color_field(parts[1]));
    let r = parse_meta_spec(s)->Ok_0;
    assert(r.next == t.next) by {
        match t.next {
            Color::White => {
                assert(parts[1][0] == 'w');
            },
            Color::Black => {
                assert(parts[1][0] != 'w');
            },
        }
    }
    assert forall|i: int, j: int| 0 <= i < 3 && 0 <= j < 3 implies fen_fields_match(
        #[trigger] r.boards[i][j],
        t.boards[i][j],
    ) by {
        let k = 3 * i + j;
        assert(0 <= k < 9);
        assert(k / 3 == i && k % 3 == j);
        assert(r.boards[i][j] == parsed_flat[k]);
        crate::fen::lemma_fen_round_trip(t.boards[i][j], t.next);
        assert(flat[k] == fen_str(t.boards[i][j], t.next));
    }
}

} // verus!
