//! MMU-based interruption of running stores.
//!
//! Compiled code loads from an interrupt page at its checkpoints. Rendering
//! that page unreadable turns the next checkpoint into an access fault, which
//! the runtime takes as the request to yield. This library decides which page
//! a store watches, when a page is protected, and when it becomes readable
//! again; the embedder makes the system calls that the library asks for.

pub mod behaviour;
pub mod calls;
pub mod interrupter;
pub mod laws;
pub mod model;
pub mod page;
pub mod schedule;
pub mod system;
pub mod upkeep;
pub mod wheel;

pub use interrupter::{MmuInterrupter, PageHandle};
pub use wheel::TimingWheelInterrupter;
