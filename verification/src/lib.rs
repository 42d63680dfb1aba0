//! Verified core of an RTT/UART variable-watch tool: the host side's line
//! protocol and variable tree, and the target side's watch table, value
//! codecs and command protocol.

pub mod text;
pub mod watch_state;
pub mod watch_value;
pub mod watch_table;
pub mod watch_task;
pub mod link;
pub mod derive_plan;
pub mod app_state;
