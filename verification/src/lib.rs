//! A schema-driven binary compression codec.
//!
//! A structured value (a record or a tagged variant) whose integer fields
//! carry a declared inclusive upper bound is packed into the minimum number
//! of bits that the bound requires, and is losslessly reconstructed from the
//! packed bitstream.  Encoder and decoder derive an identical bit layout from
//! the schema alone: no layout information travels on the wire.

pub mod bits;
pub mod buffer;
pub mod codec;
pub mod compressed;
pub mod declaration;
pub mod error;
pub mod schema;
pub mod value;
