//! A small remote agent's protocol core: a position-marked frame format, a
//! lane-mixing permutation, and the ratcheting stream cipher built on it.

pub mod cipher;
pub mod dispatch;
pub mod frame;
pub mod hash;
pub mod keys;
