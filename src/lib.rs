//! Core of an asynchronous RESP client: the incremental frame codec, the
//! transaction coordinator, the pub/sub message handling and the small state
//! machines (mode, router, pipeline, reconnection) that drive a connection.

pub mod value;
pub mod buffer;
pub mod frame;
pub mod stream;
pub mod decoder;
pub mod command;
pub mod transaction;
pub mod pub_sub;
pub mod registry;
pub mod pipeline;
pub mod reconnect;
pub mod round_trip;

pub use command::{cmd, Command};
pub use decoder::ValueDecoder;
pub use pub_sub::{PubSubMessage, PubSubStream};
pub use transaction::Transaction;
pub use value::{Error, RedisError, RedisErrorKind, Value};
