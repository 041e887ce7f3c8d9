//! Fixed-size collections: a circular buffer that overwrites its oldest
//! entries once full, and a fixed-size array of optionally initialised slots.

pub mod arr;
mod std_calls;
pub mod ring_buf;

pub use arr::Arr;
pub use ring_buf::{RingBuf, RingBufFiniteIntoIter, RingBufFiniteIter, RingBufFiniteIterMut};
