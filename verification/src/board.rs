//! The single chess board: its cells, castling rights, clocks, outcome and
//! position history, together with the mathematical model that the codec and
//! the rule engine are specified against.

use vstd::prelude::*;
use vstd::string::StringExecFns;

use crate::types::Color;
use crate::types::Coordinates;
use crate::types::EndResult;
use crate::types::Piece;
use crate::types::PieceName;

verus! {

/// Which castlings are still available to each color.
#[derive(Debug, Clone, Copy, PartialEq, Eq, Structural)]
pub struct CastlingRights {
    pub white_king: bool,
    pub white_queen: bool,
    pub black_king: bool,
    pub black_queen: bool,
}

/// The mathematical model of a board: what the contracts speak of.
#[verifier::ext_equal]
pub struct BoardModel {
    /// Row 0 is rank 1; each row runs from file a to file h.
    pub cells: Seq<Seq<Option<Piece>>>,
    pub castling: CastlingRights,
    pub en_passant: Option<Coordinates>,
    pub halfmove: nat,
    pub fullmove: nat,
    pub end: EndResult,
    /// The FEN text recorded after each move, oldest first.
    pub past: Seq<Seq<char>>,
}

/// A well-formed board: an 8-by-8 grid, an en-passant target on the board,
/// and clocks that a machine word can hold.
pub open spec fn board_wf(m: BoardModel) -> bool {
    &&& m.cells.len() == 8
    &&& forall|r: int| 0 <= r < 8 ==> #[trigger] m.cells[r].len() == 8
    &&& match m.en_passant {
        Some(sq) => sq.row < 8 && sq.col < 8,
        None => true,
    }
    &&& m.halfmove <= usize::MAX
    &&& m.fullmove <= usize::MAX
}

/// Whether some cell of `cells` holds exactly `p`.
pub open spec fn has_piece(cells: Seq<Seq<Option<Piece>>>, p: Piece) -> bool {
    exists|r: int, c: int|
        0 <= r < cells.len() && 0 <= c < cells[r].len() && cells[r][c] == Some(p)
}

/// The outcome read off a parsed position: a side missing its King has
/// already lost; White is checked first.
pub open spec fn end_scan(cells: Seq<Seq<Option<Piece>>>) -> EndResult {
    if !has_piece(cells, Piece { color: Color::Black, name: PieceName::KING }) {
        EndResult::Color(0)
    } else if !has_piece(cells, Piece { color: Color::White, name: PieceName::KING }) {
        EndResult::Color(1)
    } else {
        EndResult::Undecided(true)
    }
}

/// `n` empty cells.
pub open spec fn empty_cells(n: int) -> Seq<Option<Piece>> {
    Seq::new(n as nat, |i: int| None::<Piece>)
}

/// The back rank of `color` at the start of a game.
pub open spec fn start_rank(color: Color) -> Seq<Option<Piece>> {
    seq![
        Some(Piece { color, name: PieceName::ROOK }),
        Some(Piece { color, name: PieceName::KNIGHT }),
        Some(Piece { color, name: PieceName::BISHOP }),
        Some(Piece { color, name: PieceName::QUEEN }),
        Some(Piece { color, name: PieceName::KING }),
        Some(Piece { color, name: PieceName::BISHOP }),
        Some(Piece { color, name: PieceName::KNIGHT }),
        Some(Piece { color, name: PieceName::ROOK }),
    ]
}

/// A rank of eight pawns of `color`.
pub open spec fn pawn_rank(color: Color) -> Seq<Option<Piece>> {
    Seq::new(8, |i: int| Some(Piece { color, name: PieceName::PAWN }))
}

/// The cells of the standard initial position.
pub open spec fn initial_cells() -> Seq<Seq<Option<Piece>>> {
    seq![
        start_rank(Color::White),
        pawn_rank(Color::White),
        empty_cells(8),
        empty_cells(8),
        empty_cells(8),
        empty_cells(8),
        pawn_rank(Color::Black),
        start_rank(Color::Black),
    ]
}

/// The standard initial board, with its FEN already on the history.
pub open spec fn initial_model() -> BoardModel {
    BoardModel {
        cells: initial_cells(),
        castling: CastlingRights {
            white_king: true,
            white_queen: true,
            black_king: true,
            black_queen: true,
        },
        en_passant: None,
        halfmove: 0,
        fullmove: 1,
        end: EndResult::Undecided(true),
        past: seq!["rnbqkbnr/pppppppp/8/8/8/8/PPPPPPPP/RNBQKBNR w KQkq - 0 1"@],
    }
}

/// One chess board of the meta-game.
#[derive(Debug, Clone, PartialEq, Eq)]
pub struct ChessBoard {
    /// Row 0 is rank 1; each row runs from file a to file h.
    pub board: Vec<Vec<Option<Piece>>>,
    pub castling: CastlingRights,
    pub en_passant: Option<Coordinates>,
    pub halfmove: usize,
    pub fullmove: usize,
    pub end: EndResult,
    pub past: Vec<String>,
}

impl View for ChessBoard {
    type V = BoardModel;

    open spec fn view(&self) -> BoardModel {
        BoardModel {
            cells: self.board@.map_values(|row: Vec<Option<Piece>>| row@),
            castling: self.castling,
            en_passant: self.en_passant,
            halfmove: self.halfmove as nat,
            fullmove: self.fullmove as nat,
            end: self.end,
            past: self.past@.map_values(|s: String| s@),
        }
    }
}

/// A row of eight empty cells.
fn empty_row() -> (r: Vec<Option<Piece>>)
    ensures
        r@ == empty_cells(8),
{
    let mut r: Vec<Option<Piece>> = Vec::new();
    let mut i: usize = 0;
    while i < 8
        invariant
            i <= 8,
            r@ =~= empty_cells(i as int),
        decreases 8 - i,
    {
        r.push(None);
        i = i + 1;
        assert(r@ =~= empty_cells(i as int));
    }
    r
}

/// A row of eight pawns of `color`.
fn pawn_row(color: Color) -> (r: Vec<Option<Piece>>)
    ensures
        r@ == pawn_rank(color),
{
    let mut r: Vec<Option<Piece>> = Vec::new();
    let mut i: usize = 0;
    while i < 8
        invariant
            i <= 8,
            r@ =~= pawn_rank(color).take(i as int),
        decreases 8 - i,
    {
        r.push(Some(Piece { color, name: PieceName::PAWN }));
        i = i + 1;
        assert(r@ =~= pawn_rank(color).take(i as int));
    }
    assert(pawn_rank(color).take(8) =~= pawn_rank(color));
    r
}

/// The back rank of `color` at the start of a game.
fn start_row(color: Color) -> (r: Vec<Option<Piece>>)
    ensures
        r@ == start_rank(color),
{
    let mut r: Vec<Option<Piece>> = Vec::new();
    r.push(Some(Piece { color, name: PieceName::ROOK }));
    r.push(Some(Piece { color, name: PieceName::KNIGHT }));
    r.push(Some(Piece { color, name: PieceName::BISHOP }));
    r.push(Some(Piece { color, name: PieceName::QUEEN }));
    r.push(Some(Piece { color, name: PieceName::KING }));
    r.push(Some(Piece { color, name: PieceName::BISHOP }));
    r.push(Some(Piece { color, name: PieceName::KNIGHT }));
    r.push(Some(Piece { color, name: PieceName::ROOK }));
    assert(r@ =~= start_rank(color));
    r
}

impl Default for ChessBoard {
    /// The standard initial position.
    fn default() -> (r: ChessBoard)
        ensures
            r@ == initial_model(),
            board_wf(r@),
    {
        let mut board: Vec<Vec<Option<Piece>>> = Vec::new();
        board.push(start_row(Color::White));
        board.push(pawn_row(Color::White));
        board.push(empty_row());
        board.push(empty_row());
        board.push(empty_row());
        board.push(empty_row());
        board.push(pawn_row(Color::Black));
        board.push(start_row(Color::Black));
        let mut past: Vec<String> = Vec::new();
        past.push(String::from_str("rnbqkbnr/pppppppp/8/8/8/8/PPPPPPPP/RNBQKBNR w KQkq - 0 1"));
        let r = ChessBoard {
            board,
            castling: CastlingRights {
                white_king: true,
                white_queen: true,
                black_king: true,
                black_queen: true,
            },
            en_passant: None,
            halfmove: 0,
            fullmove: 1,
            end: EndResult::Undecided(true),
            past,
        };
        proof {
            assert(r@.cells =~= initial_cells());
            assert(r@.past =~= initial_model().past);
            assert(r@ =~= initial_model()) by {
                assert(r@.cells == initial_model().cells);
                assert(r@.past == initial_model().past);
            }
            assert(forall|i: int| 0 <= i < 8 ==> #[trigger] initial_cells()[i].len() == 8);
        }
        r
    }
}

} // verus!


verus! {

/// Relies on rand's `SliceRandom::choose_multiple`: a random sample of
/// `amount` elements taken at distinct indices of the slice (all of its
/// elements when it is shorter than `amount`), yielded in an unspecified
/// order. Every sampled element is one of the slice's, the sample's
/// multiset is contained in the slice's, and a slice of pairwise distinct
/// elements yields a pairwise distinct sample.
#[verifier::external_body]
fn choose_distinct(items: &Vec<char>, amount: usize) -> (r: Vec<char>)
    ensures
        r@.len() == vstd::math::min(amount as int, items@.len() as int),
        r@.to_multiset().subset_of(items@.to_multiset()),
        forall|i: int| 0 <= i < r@.len() ==> items@.contains(#[trigger] r@[i]),
        (forall|i: int, j: int| 0 <= i < j < items@.len() ==> items@[i] != items@[j]) ==> (forall|
            i: int,
            j: int,
        |
            0 <= i < j < r@.len() ==> r@[i] != r@[j]),
{
    rand::seq::SliceRandom::choose_multiple(items.as_slice(), &mut rand::thread_rng(), amount)
        .copied()
        .collect()
}

/// The thirteen drawn symbols: the twelve piece letters and the digit one.
fn sample_symbols() -> (r: Vec<char>)
    ensures
        r@ == seq!['r', 'n', 'b', 'q', 'k', '1', 'p', 'P', 'R', 'N', 'B', 'Q', 'K'],
{
    let mut r: Vec<char> = Vec::new();
    r.push('r');
    r.push('n');
    r.push('b');
    r.push('q');
    r.push('k');
    r.push('1');
    r.push('p');
    r.push('P');
    r.push('R');
    r.push('N');
    r.push('B');
    r.push('Q');
    r.push('K');
    assert(r@ =~= seq!['r', 'n', 'b', 'q', 'k', '1', 'p', 'P', 'R', 'N', 'B', 'Q', 'K']);
    r
}

impl ChessBoard {
    /// A board drawn at random: each rank takes eight distinct symbols from
    /// the twelve piece letters and the digit one, and the text is read back
    /// as a position. Whatever the draw, the result carries all four
    /// castling rights, no en-passant target, clocks zero and one, the
    /// outcome read off its cells, and at most one empty cell per rank.
    #[verifier::loop_isolation(false)]
    #[verifier::rlimit(60)]
    pub fn random() -> (r: ChessBoard)
        ensures
            board_wf(r@),
            r@.castling == (CastlingRights {
                white_king: true,
                white_queen: true,
                black_king: true,
                black_queen: true,
            }),
            r@.en_passant is None,
            r@.halfmove == 0,
            r@.fullmove == 1,
            r@.end == end_scan(r@.cells),
            forall|rw: int, i: int, j: int|
                0 <= rw < 8 && 0 <= i < 8 && 0 <= j < 8 && i != j && r@.cells[rw][i] is None
                    ==> r@.cells[rw][j] is Some,
    {
        let samples = sample_symbols();
        proof {
            assert(forall|i: int, j: int|
                0 <= i < j < samples@.len() ==> samples@[i] != samples@[j]);
            assert forall|c: char| samples@.contains(c) implies (crate::fen::piece_of_char(
                c,
            ) is Some || c == '1') by {
                let i = choose|i: int| 0 <= i < samples@.len() && samples@[i] == c;
            }
        }
        let mut text: Vec<char> = Vec::new();
        let ghost mut chunks: Seq<Seq<char>> = Seq::empty();
        let mut k: usize = 0;
        proof {
            assert(text@ =~= crate::fen::join_char(chunks, '/'));
        }
        while k < 8
            invariant
                k <= 8,
                chunks.len() == k,
                text@ == crate::fen::join_char(chunks, '/'),
                forall|x: int| 0 <= x < k ==> (#[trigger] chunks[x]).len() == 8,
                forall|x: int, i: int|
                    0 <= x < k && 0 <= i < 8 ==> crate::fen::piece_of_char(
                        #[trigger] chunks[x][i],
                    ) is Some || chunks[x][i] == '1',
                forall|x: int, i: int, j: int|
                    #![trigger chunks[x][i], chunks[x][j]]
                    0 <= x < k && 0 <= i < j < 8 ==> chunks[x][i] != chunks[x][j],
            decreases 8 - k,
        {
            let ghost prev = chunks;
            if k > 0 {
                text.push('/');
            }
            let mut rank = choose_distinct(&samples, 8);
            let ghost rview = rank@;
            proof {
                assert(rview.len() == 8);
                assert forall|i: int| 0 <= i < 8 implies crate::fen::piece_of_char(
                    #[trigger] rview[i],
                ) is Some || rview[i] == '1' by {
                    assert(samples@.contains(rview[i]));
                }
                chunks = chunks.push(rview);
            }
            text.append(&mut rank);
            k = k + 1;
            proof {
                crate::fen::lemma_join_push(prev, rview, '/');
                if k == 1 {
                    assert(crate::fen::join_char(prev, '/') =~= Seq::<char>::empty());
                    assert(text@ =~= crate::fen::join_char(chunks, '/'));
                } else {
                    assert(text@ =~= crate::fen::join_char(prev, '/') + seq!['/'] + rview);
                    assert(text@ =~= crate::fen::join_char(chunks, '/'));
                }
            }
        }
        let ghost placement = crate::fen::join_char(chunks, '/');
        text.push(' ');
        text.push('w');
        text.push(' ');
        text.push('K');
        text.push('Q');
        text.push('k');
        text.push('q');
        text.push(' ');
        text.push('-');
        text.push(' ');
        text.push('0');
        text.push(' ');
        text.push('1');
        proof {
            crate::fen::lemma_drawn_text_parses(chunks);
            assert(text@ =~= placement + seq![
                ' ',
                'w',
                ' ',
                'K',
                'Q',
                'k',
                'q',
                ' ',
                '-',
                ' ',
                '0',
                ' ',
                '1',
            ]);
        }
        let fen = crate::text::chars_to_string(&text);
        let b = match ChessBoard::parse_fen(fen.as_str()) {
            Ok(b) => b,
            Err(_) => {
                proof {
                    assert(false);
                }
                unreached()
            },
        };
        proof {
            let m = crate::fen::parse_fen_spec(text@)->Ok_0;
            assert(b@ == m);
            assert forall|rw: int, i: int, j: int|
                0 <= rw < 8 && 0 <= i < 8 && 0 <= j < 8 && i != j && b@.cells[rw][i] is None
                implies b@.cells[rw][j] is Some by {
                let chunk = chunks[7 - rw];
                crate::fen::lemma_rank_single_cells(chunk);
                assert(b@.cells[rw] == crate::fen::rank_decode(chunk)->0);
                assert(chunk[i] == '1');
                if b@.cells[rw][j] is None {
                    assert(chunk[j] == '1');
                    if i < j {
                        assert(chunk[i] != chunk[j]);
                    } else {
                        assert(chunk[j] != chunk[i]);
                    }
                }
            }
        }
        b
    }
}

} // verus!
