//! A codec for the classic Macintosh resource-fork container: a typed,
//! self-describing archive of resources (payload bytes addressed by a
//! four-byte type code and a 16-bit id, optionally named).
//!
//! `parse` turns a raw byte sequence into a navigable [`ResourceFork`];
//! `pack` re-linearizes a fork, recomputing every length and offset from the
//! current contents.  Packing a parsed, unmodified fork reproduces the input
//! bit for bit; the round trip is proved in [`laws`].

pub mod bytes;
pub mod model;
pub mod pack;
pub mod parse;
pub mod validity;
pub mod laws;

pub use model::{FileHeader, ResourceFork, ResourceMap, ResourceReference, ResourceType};
pub use model::{PackError, ParseError};
pub use pack::{pack, pack_header};
pub use parse::{parse, parse_header};
pub use validity::structurally_valid;
