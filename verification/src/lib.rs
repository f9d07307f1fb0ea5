//! sshpal: project-aware sync with a remote machine over SSH, and tasks that the remote
//! machine has run on the local one.
//!
//! The library decides and the program around it acts. Files, processes, sockets and clocks
//! stay outside: the library takes what was seen as plain values, and says in plain values
//! what is to be done.
//!
//! - [`config`]: the configuration, what is valid in it, and where it is found.
//! - [`paths`]: the paths that a sync works on, none of which leaves the project.
//! - [`template`] and [`tasks`]: tasks, their variables, the commands that they run and the
//!   text that describes them.
//! - [`process`]: the commands for syncing, for the tunnel and for the remote helper.
//! - [`rpc`], [`execution`] and [`streams`]: which requests of the remote machine are taken,
//!   when a task starts, what is sent back while it runs, and that its output comes before
//!   its end.
//! - [`health`]: the report on the setup.
//! - [`cli`]: the commands of the program.
//! - [`helper`]: the script that the remote machine runs.
//! - [`text`], [`name_map`], [`encoding`] and [`time_span`]: what the others build on.
//! - [`laws`]: what the operations are for, of what goes in and what comes out.
pub mod cli;
pub mod config;
pub mod encoding;
pub mod execution;
pub mod health;
pub mod helper;
pub mod laws;
pub mod name_map;
pub mod paths;
pub mod process;
pub mod rpc;
pub mod streams;
pub mod tasks;
pub mod template;
pub mod text;
pub mod time_span;
