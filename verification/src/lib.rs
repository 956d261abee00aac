pub mod cache;
pub mod date;
pub mod error;
pub mod holiday;
pub mod ics;
pub mod location;
pub mod providers;
pub mod strutil;
pub mod types;

pub use error::{Error, Result};
