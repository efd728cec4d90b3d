//! A codec for the REdis Serialization Protocol: values to frames and back.
//!
//! [`serialize`] turns a [`Resp`] into the bytes that go on the wire and
//! [`deserialize`] reads one frame back. Both are pure functions on bytes;
//! what they compute is stated over the mathematical model in [`value`],
//! [`wire`] and [`grammar`], and the laws that tie the two directions
//! together are proved in [`laws`].

pub mod decimal;
pub mod deserialize;
pub mod error;
pub mod grammar;
pub mod laws;
pub mod serialize;
pub mod value;
pub mod wire;

pub use deserialize::{
    deserialize, deserialize_array, deserialize_at, deserialize_bulk, deserialize_error,
    deserialize_integer, deserialize_simple, get_resp_array_size,
};
pub use error::{Expected, RespError};
pub use serialize::{serialize, serialize_array};
pub use value::{Resp, Value};
