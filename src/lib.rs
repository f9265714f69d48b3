//! A map and a set kept in a vector and searched linearly.

pub mod borrowed;
pub mod codec;
pub mod iter;
pub mod laws;
pub mod map;
pub mod model;
pub mod set;

pub use codec::LinearMapVisitor;
pub use borrowed::{LinearBorrowedMap, LinearBorrowedMapMut};
pub use iter::{Drain, IntoIter, Iter, IterMut, Keys, Values};
pub use map::{Entry, LinearMap, OccupiedEntry, VacantEntry};
