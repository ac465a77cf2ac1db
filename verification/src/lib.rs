pub mod alloced;
pub mod de;
pub mod encoder;
pub mod mutable;
pub mod error;
pub mod roundtrip;
pub mod scope;
pub mod ser;
pub mod shared_keys;
pub mod value;

pub use encoder::Encoder;
pub use error::Error;
pub use value::{Value, ValueType};
