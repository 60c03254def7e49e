//! The system calls of a teaching kernel for process management and
//! synchronisation, with deadlock detection by the banker's algorithm.
//!
//! Each call decides from its arguments and the process's synchronisation
//! state; work that only a kernel can do (blocking, scheduling, copying to
//! user memory, changing the address space) is handed back as an
//! [`outcome::Action`].

pub mod outcome;
pub mod process;
pub mod safety;
pub mod state;
pub mod sync;
