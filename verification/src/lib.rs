//! Records of molecular structure files in the fixed-column text format:
//! decoding and encoding of atom lines, selection by chain and residue,
//! chain terminators, centring on the centroid, and the connectivity lines
//! that go with hetero atoms.

pub mod atom;
pub mod collection;
pub mod connect;
pub mod fetch;
pub mod filter;
pub mod numeral;
pub mod roundtrip;
pub mod scan;
pub mod text;

pub use atom::{Atom, AtomView, DecodeError, Field, RecordType};
pub use collection::AtomCollection;
pub use connect::Connections;
pub use filter::{get_chain_mask, Filter};
pub use numeral::Fixed;
