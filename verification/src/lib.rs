//! The channel and directory logic of a wires network.
//!
//! Every module holds plain values and decisions over them; sockets, files,
//! clocks and encryption stay with the program around the library.

pub mod ids;
pub mod cli;
pub mod clock;
pub mod commands;
pub mod context;
pub mod db;
pub mod dial;
pub mod directory;
pub mod envelope;
pub mod feeds;
pub mod idp_view;
pub mod kv;
pub mod local;
pub mod nodes;
pub mod order;
pub mod peers;
pub mod policy;
pub mod printer;
pub mod publish;
pub mod records;
pub mod rekey;
pub mod render;
pub mod serve;
pub mod start;
pub mod store;
pub mod table;
pub mod text;
pub mod topics;
pub mod watch;
pub mod wire;
