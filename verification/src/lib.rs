pub mod config;
pub mod hints;
pub mod layout;
pub mod sequence;
pub mod session;
pub mod shortest;
pub mod text;
pub mod windows;
