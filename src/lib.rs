//! An in-memory key-value and publish/subscribe store speaking a RESP
//! subset: the wire codec, the command parser, and the state engine.
pub mod cmd;
pub mod db;
pub mod frame;
pub mod server;
pub mod subscribe;
