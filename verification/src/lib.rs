//! Disk usage exploration: scanned trees, searching, listing and the state of
//! the interactive browser, as verified functions on plain values.

pub mod browser;
pub mod browser_laws;
pub mod browsing_laws;
pub mod children;
pub mod listing;
pub mod listing_laws;
pub mod mark_laws;
pub mod ops;
pub mod order;
pub mod path_laws;
pub mod path_map;
pub mod paths;
pub mod removal;
pub mod scan;
pub mod scan_laws;
pub mod screen;
pub mod screen_laws;
pub mod search;
pub mod search_laws;
pub mod size;
pub mod startup;
pub mod state;
pub mod text;
pub mod text_laws;
pub mod totals;
pub mod tree;
pub mod tree_laws;
