pub mod addr;
pub mod chord;
pub mod message;
pub mod network;
pub mod ordered_map;
pub mod pubsub;
pub mod router;
pub mod runner;
pub mod web;

pub use router::metric::Float;
pub use runner::{InputEvent, OutputEvent, P2pStreamRunner};
