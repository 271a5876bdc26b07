//! The rmate protocol and the editing session that a Zed rmate server runs.

pub mod number;
pub mod path;
pub mod protocol;
pub mod reply;
pub mod server;
pub mod text;
pub mod wire;

