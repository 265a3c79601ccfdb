//! Command records and the collection that stores them.

pub mod error;
pub mod hoard_command;
pub mod laws;
pub mod model;
pub mod trove;

pub use self::error::TroveError;
pub use self::hoard_command::HoardCommand;
