//! A verified engine for "chess-tac-toe": a 3-by-3 grid of independent chess
//! boards whose global turn alternates across the whole grid, together with
//! the matchmaking directory of the multiplayer server built on it.

pub mod board;
pub mod fen;
pub mod moves;
pub mod rules;
pub mod server;
pub mod text;
pub mod tictactoe;
pub mod types;

pub use board::BoardModel;
pub use board::CastlingRights;
pub use board::ChessBoard;
pub use server::ChessServer;
pub use server::DenyReason;
pub use server::GameEntry;
pub use server::GameService;
pub use server::JoinOutcome;
pub use server::LobbyCreated;
pub use server::MoveBroadcast;
pub use server::ServerError;
pub use server::Snapshot;
pub use server::make_move;
pub use tictactoe::TicTacToe;
pub use types::ChessError;
pub use types::Color;
pub use types::Coordinates;
pub use types::EndResult;
pub use types::FenError;
pub use types::GameError;
pub use types::MoveError;
pub use types::Piece;
pub use types::PieceName;
pub use types::TicError;
