//! An in-memory key/value server core in the style of the Redis wire
//! protocol: a frame codec, a command parser, and a shared data engine
//! with key expiration and publish/subscribe fan-out.

pub mod cmd;
pub mod db;
pub mod dispatch;
pub mod frame;
pub mod laws;
pub mod parse;
pub mod stream_consumer;
pub mod streams;
pub mod util;
