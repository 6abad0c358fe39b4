//! A dynamically typed value tree for event records: values and their
//! kinds and coercions, handles that share a value node with copy-on-write
//! mutation and a guard against reentrant mutable access, and reading,
//! writing and removing by path.

pub mod equality;
pub mod path;
pub mod shared_value;
pub mod value;
