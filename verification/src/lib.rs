//! A clipboard history: the store of captured clipboard entries, the rules
//! that decide what is recorded, how it is ordered, kept, searched and shown,
//! and the small text protocols between the daemon and the popup.

pub mod clock;
pub mod hashing;
pub mod imaging;
pub mod like;
pub mod model;
pub mod database;
pub mod laws;
pub mod text;
pub mod paste_handler;
pub mod protocol;
pub mod ui;
pub mod daemon;
