//! Page image pipeline of a comic-book archive viewer: decoded-page caching,
//! decode scheduling, spread composition and texture bookkeeping.

pub mod archive_order;
pub mod budget;
pub mod compose;
pub mod decode;
pub mod error;
pub mod image_binding;
pub mod layout;
pub mod lru_binding;
pub mod manifest;
pub mod page;
pub mod page_cache;
pub mod pipeline;
pub mod recency;
pub mod scheduler;
pub mod spread_cache;
pub mod texture;
pub mod zoom;
