//! Layered configuration of a command-line program: where its files are, what the
//! layers say together, which variables are set where, and how files are edited.

pub mod command_env;
pub mod commands;
pub mod config_crate;
pub mod defaults;
pub mod edit;
pub mod environment;
pub mod error;
pub mod layered;
pub mod layers;
pub mod listing;
pub mod name_path;
pub mod order;
pub mod overlay;
pub mod path_name;
pub mod paths;
pub mod regex_crate;
pub mod resolve;
pub mod source;
pub mod text;
pub mod toml_crate;
pub mod toml_text;
pub mod toml_value;
pub mod value;
pub mod variables;
