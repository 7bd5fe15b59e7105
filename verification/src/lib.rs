//! The verified core of a small interactive shell: a path resolver, the
//! working-directory state machine, a command-line tokenizer, the listing
//! renderer, and copy/move/create/remove engines over an explicit
//! filesystem state, each with a contract that pins down what it returns
//! and what it changes.

pub mod text;
pub mod resolve;
pub mod shell;
pub mod util;
pub mod echo;
pub mod fs_model;
pub mod file_ops;
pub mod ls;
pub mod fs_cmds;
pub mod plan;
