pub mod text;
pub mod order;
pub mod strmap;
pub mod envfile;
pub mod loopback;
pub mod api;
pub mod cache;
pub mod config;
pub mod commands;
pub mod auth;
