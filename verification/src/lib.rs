//! A minimal Redis-style core: a RESP wire-protocol codec and a command
//! dispatcher over an in-memory keyed store. The codec turns lines of input
//! into protocol values and protocol values back into wire text; the
//! dispatcher interprets a decoded request (PING, SET, GET, HSET, HGET,
//! HGETALL) and reads or mutates the store.

pub mod handler;
pub mod resp;
pub mod text;
pub mod util;
