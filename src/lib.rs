//! Editing of a compositor's per-user forced-focus class list, with the
//! session and account resolution around it.

pub mod text;
pub mod classes;
pub mod ini;
pub mod focus;
pub mod account;
pub mod session;
pub mod reload;
pub mod display;
pub mod wrap;
pub mod cli;
