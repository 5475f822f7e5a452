//! The large-object space of a tracing mark-sweep collector: node
//! bookkeeping, allocation against a byte budget, the tri-state mark policy,
//! sweep, and the decisions of the allocate-or-collect retry protocol.
pub mod freelist;
pub mod retry;
