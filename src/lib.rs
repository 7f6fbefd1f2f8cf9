//! Message framing and command parsing for a line-oriented IRC-style server.
pub mod client_commands;
pub mod commands;
pub mod framer;
pub mod session;
