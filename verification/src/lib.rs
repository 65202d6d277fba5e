//! Storage, channel and configuration logic of the v-m.io services.

pub mod text;
pub mod crypto;
pub mod hexa;
pub mod db;
pub mod reply;
pub mod srv;
pub mod cfg;
pub mod back;
pub mod cli;
pub mod api;
pub mod chan;
