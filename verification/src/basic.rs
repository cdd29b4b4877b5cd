//! The board, the rules and the game.

pub mod error;
pub mod board;
pub mod zip;
pub mod group;
pub mod rule;
pub mod game;
pub mod save;
pub mod show;

pub use error::GoError;
pub use board::{Board, BoardSize, BoardView, Stone};
pub use zip::{unzip_board, zip_board, BoardZip};
pub use group::{calc_liberty, get_block, neighbour_at, Point};
pub use rule::{
    check_if_empty, check_if_never_repeat_with_new_stone, remove_block,
    remove_lose_liberty_stones,
};
pub use game::{Cmd, Game, GameView, Player};
