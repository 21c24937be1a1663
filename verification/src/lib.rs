//! Core of a desktop application launcher.

pub mod catalog;
pub mod discover;
pub mod history;
pub mod launch;
pub mod launcher;
pub mod paths;
pub mod rank;
pub mod record;
pub mod resolve;
pub mod session;
pub mod text;
pub mod theme;
