//! A fixed-size worker pool with a deterministic two-phase shutdown.
//!
//! The pool accepts single-use units of work from producers and hands each
//! one to exactly one of a bounded set of workers, through one shared FIFO
//! queue. Shutdown broadcasts one stop signal per worker before waiting on
//! any of them, so every worker eventually sees a stop signal and the wait
//! phase never blocks on a starved worker.
//!
//! The pool here is the verified protocol core: it holds the queue, the
//! worker states and the accounting of what was submitted and executed, and
//! its contracts pin down the exactly-once, in-order hand-off and the
//! termination of disposal. Running each worker on its own operating-system
//! thread, and the blocking dequeue, are the surrounding program's concern:
//! such a program carries the library's control signals over its channel and
//! realises each worker transition that `step` describes — run what arrives,
//! exit on a stop signal.

pub mod pool;
pub mod request;
