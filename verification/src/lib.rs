//! Memory-management core of a bare-metal x86_64 kernel, verified with Verus.
//!
//! The crate models the machine's direct-mapped physical memory as an explicit
//! word store, and builds on it a physical frame allocator (an intrusive free
//! list written into the free frames themselves), a bit-exact page-table entry
//! codec, and a 4-level virtual-memory mapper with lazy intermediate-table
//! creation, rollback on partial failure, and an exact query operation.

pub mod alloc_page;
pub mod arch;
pub mod boot;
pub mod mem;
pub mod stack;
