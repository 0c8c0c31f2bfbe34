//! The logic of a terminal monitor.

pub mod bytes;
pub mod dict;
pub mod flags;
pub mod invest;
pub mod keys;
pub mod legado;
pub mod monitor;
pub mod number;
pub mod order;
pub mod pick;
pub mod scan;
pub mod text;
