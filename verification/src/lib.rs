//! A verified model of a small kernel's virtual-memory mapper and task table.
//!
//! The crate models the x86-64 4-level page-table hierarchy as owned data:
//! a `Mapper` holds the table tree rooted at a P4 frame, physical memory and
//! the frame / page allocators are explicit values, and every operation on
//! them carries a contract over a specification-level page-table walk.

pub mod addr;
pub mod flags;
pub mod phys;
pub mod table;
pub mod mapper;
pub mod mapped_pages;
pub mod task;
