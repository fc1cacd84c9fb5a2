//! A handful of small data structures and algorithms, each with its
//! behaviour stated as a contract and proved.

pub mod id;
pub mod cipher;
pub mod deque;
pub mod stack;
pub mod tictactoe;
pub mod event;
