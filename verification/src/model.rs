//! What a scan is asked to do, and what it establishes.

pub mod capture;
pub mod confidence;
pub mod exclusion;
pub mod finding;
pub mod host;
pub mod ip;
pub mod mac;
pub mod order;
pub mod parse;
pub mod port;
pub mod target;
pub mod time;
