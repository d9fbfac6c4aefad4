//! An interactive command-line runtime for resource-constrained devices.
//!
//! Raw input bytes are decoded one at a time into editing events, edited
//! text is tokenized in place into shell-like tokens, tokens are classified
//! into options and values, and complete lines are dispatched against a
//! caller-supplied command schema, with line history and tab-autocompletion.

pub mod arguments;
pub mod autocomplete;
pub mod cli;
pub mod command;
pub mod editor;
pub mod help;
pub mod history;
pub mod input;
pub mod service;
pub mod token;
pub mod utf8;

pub mod utils;
pub mod writer;
