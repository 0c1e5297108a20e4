//! Discrete rules of a Flappy Bird game: the run state machine, the
//! pseudo-random generator that places the pipes, scoring and the persisted
//! best score.

pub mod storage;
pub mod game;
