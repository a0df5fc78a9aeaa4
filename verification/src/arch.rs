//! Architecture-level page-table structures with compile-time level typing:
//! the type system prevents treating a level-1 table as a level-4 table.

pub mod paging;
