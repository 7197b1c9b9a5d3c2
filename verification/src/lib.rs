//! Team balancing, lobby division and player bookkeeping for a Quake
//! Champions Discord community, with the rules proved by Verus.

pub mod text;
pub mod name_order;
pub mod game_mode;
pub mod listing;
pub mod ordering;
pub mod combinations;
pub mod balancing;
pub mod balancing_laws;
pub mod db;
pub mod commands;
pub mod players;
pub mod components;
pub mod lobbies;
pub mod replies;
pub mod config;
pub mod backup;
pub mod invocation;
pub mod codec;
pub mod custom_id;
pub mod discord;
pub mod pubobot;
