//! Bit-addressable sequences over ordinary unsigned-integer storage.
//!
//! A region of bits is described by a packed pointer (`BitPtr`), read and
//! written through a view (`BitSlice`), and owned by a growable vector
//! (`BitVec`) or a fixed buffer (`BitBox`). The mapping from a bit's index
//! to its position inside a storage element is a `BitOrder`; the storage
//! element itself is a `BitStore`.

pub mod arith;
pub mod error;
pub mod store;
pub mod order;
pub mod access;
pub mod pointer;
pub mod domain;
pub mod slice;
pub mod bulk;
pub mod compare;
pub mod vec;
pub mod boxed;
pub mod iter;
pub mod fmt;

pub use crate::access::Access;
pub use crate::boxed::BitBox;
pub use crate::compare::Lex;
pub use crate::domain::{Domain, Partial};
pub use crate::error::Error;
pub use crate::iter::Iter;
pub use crate::order::{BitOrder, Lsb0, Msb0};
pub use crate::pointer::BitPtr;
pub use crate::slice::BitSlice;
pub use crate::store::BitStore;
pub use crate::vec::BitVec;
