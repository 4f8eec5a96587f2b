//! Verified cores of a family of lock-free and blocking synchronisation
//! primitives: a spin lock, a futex-style mutex, a reader-writer lock, a
//! condition variable, an atomically reference-counted cell, a Michael & Scott
//! queue, and one-shot and multi-producer multi-consumer channels.
//!
//! Each primitive keeps its shared memory (its atomic words and the data they
//! guard) as plain values. Every atomic instruction the primitive issues is an
//! operation on those values with an exact contract, and every operation that
//! waits on other threads is a per-thread state machine: a phase, the
//! instruction that the phase issues, and the phase that follows from the
//! value the instruction observed. The laws in each module are stated over
//! arbitrary interleavings of such steps by any number of threads (within
//! the machine limits each law names), step by step and over whole runs from
//! a new primitive. Progress is stated for a thread that acts alone once the
//! lock it waits for is released; that a blocked call eventually returns
//! under a fair scheduler is not stated.
//!
//! The laws treat the instructions as sequentially consistent: each takes
//! effect at one instant, in one total order. The memory ordering every
//! instruction is issued with is part of its description, and is carried to
//! the hardware unchanged, but the laws do not reason about weaker orders.

pub mod word;
pub mod queue;
pub mod mutex;
pub mod spin_lock;
pub mod rw_lock;
pub mod cond_var;
pub mod arc;
pub mod oneshot;
pub mod mpmc;
