//! Resolution of a full verification key from a DID and an optional,
//! possibly abbreviated verkey, together with the base58 codec it rests on.

mod base58;
mod resolver;

pub use base58::decode;
pub use base58::encode;
pub use base58::DecodeError;
pub use resolver::build_full_verkey;
