use vstd::prelude::*;

verus! {

/// Kind of a server error: the upper-case word that starts an error frame.
#[derive(Debug, Clone, PartialEq, Eq)]
pub enum RedisErrorKind {
    /// `ERR`, the generic kind.
    GenericErr,
    WrongType,
    Moved,
    Ask,
    ClusterDown,
    NoAuth,
    Loading,
    Busy,
    ReadOnly,
    NoScript,
    MasterDown,
    MisConf,
    TryAgain,
    ExecAbort,
    Unkillable,
    NoProto,
    NoPerm,
    BusyKey,
    Xx,
    Oom,
    /// A kind outside the known set, with its word kept as it came.
    Other(String),
}

/// A server error: `-<KIND> <description>\r\n`.
#[derive(Debug, Clone, PartialEq, Eq)]
pub struct RedisError {
    pub kind: RedisErrorKind,
    pub description: String,
}

/// A decoded RESP frame.
///
/// RESP3 maps and sets are decoded as flat arrays, booleans as the integers
/// 0 and 1, and the RESP3 null as a null bulk string.  A double keeps the
/// decimal text it was sent as; it has been checked to be a well-formed
/// decimal floating-point number.
#[derive(Debug, PartialEq)]
pub enum Value {
    SimpleString(String),
    Error(RedisError),
    Integer(i64),
    Double(String),
    BulkString(Option<Vec<u8>>),
    Array(Option<Vec<Value>>),
    Push(Vec<Value>),
    Nil,
}

/// The errors of the library.
#[derive(Debug, PartialEq)]
pub enum Error {
    /// Malformed RESP bytes, with the buffer position where decoding failed.
    Parse(usize),
    /// An error frame sent back by the server.
    Redis(RedisError),
    /// The connection was lost while the request was in flight.
    ConnectionLost,
    /// The request's deadline passed.
    Timeout,
    /// `EXEC` answered with a null reply: the transaction was not run.
    Aborted,
    /// A command other than a pub/sub one was issued in subscribed mode.
    ForbiddenInSubscribedMode,
    /// A reply of a shape that the protocol does not allow here.
    Client(String),
}

} // verus!
