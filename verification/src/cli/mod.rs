//! The command-line tool: what its commands decide and print.
pub mod command;
pub mod console;
pub mod console_laws;
pub mod doctor;
pub mod exchange;
pub mod format;
pub mod path;
pub mod replay;
pub mod replay_laws;
pub mod scaffold;
pub mod sim;
pub mod sim_laws;
