//! The active and the inactive level 4 table, and the window through which a
//! frame is reached before any table refers to it.

pub mod active_page_table;
pub mod inactive_page_table;
pub mod temporary_page;
