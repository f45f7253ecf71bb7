pub mod buffer;
pub mod laws;
pub mod lookup;
pub mod name;
pub mod protocol;
pub mod resolver;
pub mod round_trip;
pub mod server;
