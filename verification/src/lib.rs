//! Stopping processes by PID, process name or listening port: the verified
//! core of the command-line tool (target parsing, process matching, port
//! tables, the kill procedure as a state machine, and text formatting).

pub mod cli;
pub mod input;
pub mod interactive;
pub mod killer;
pub mod process;
pub mod text;
