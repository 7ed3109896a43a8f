//! Partitioned convolution for real-time audio: a long impulse response is cut
//! into partitions of growing block size, the smallest is convolved on the
//! calling thread and the others by workers that are fed through lock-free
//! queues.
//!
//! The library is generic over the sample type `S` and the spectrum bin type
//! `C`. The transforms and the arithmetic on samples and bins are handed in as
//! function values, and every contract that speaks of a computed sample or bin
//! does so through the postconditions of those functions.

pub mod buffers;
pub mod conv;
pub mod envelopes;
pub mod fdl;
pub mod helpers;
pub mod kernel;
pub mod moving_conv;
pub mod non_thread;
pub mod partition;
pub mod queue;
pub mod scheduler;
pub mod straight_fft_conv;
pub mod upconv;
pub mod worker;
