//! A polite, breadth-first website crawler: a crawl frontier and scheduling
//! engine with verified set bookkeeping, URL admission filtering and
//! round-based dispatch, around external collaborators for HTTP fetching,
//! HTML link extraction and robots.txt policy.

pub mod black_list;
pub mod configuration;
pub mod page;
pub mod url_set;
pub mod utils;
pub mod website;
