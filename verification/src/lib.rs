//! Resource bookkeeping of a teaching kernel's synchronisation syscalls:
//! semaphores, mutex and condition-variable tables, deadlock avoidance with
//! the banker's algorithm, and the argument checks of the memory syscalls.
pub mod banker;
pub mod semaphore;
pub mod matrix;
pub mod sync;
pub mod config;
pub mod process;
