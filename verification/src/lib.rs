//! A compact, growable UTF-8 string: text of up to [`MAX_SIZE`] bytes lives in
//! the value itself, longer text in a shared, reference-counted buffer.

pub mod block;
pub mod compact_string;
pub mod discriminant;
pub mod heap;
pub mod model;
pub mod scalar;
pub mod scenario;
pub mod std_specs;
pub mod utf8;

pub use compact_string::{CompactString, ReserveError};
pub use discriminant::{Discriminant, HEAP_MASK, INLINE_MASK, MAX_INLINE_SIZE, MAX_SIZE};
pub use heap::HeapString;
pub use model::Model;
pub use scenario::{assert_properly_allocated, Action, Creation, Scenario};
pub use utf8::Utf8Error;
