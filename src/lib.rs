//! Caching of remote images for a render loop: a download cache that keeps
//! each resource in a local file, a bounded least-recently-used cache of
//! decoded handles, and a limiter on how many new images one frame may show.
//!
//! The render path only reads state and queues work; the host's update cycle
//! drains that queue, runs the downloads and decodes, and reports completions.
use vstd::prelude::*;

pub mod image_cache;
pub use image_cache::{Cacher, Slot};
pub mod limiter;
pub use limiter::ImgLimiter;
pub mod locator;
pub use locator::url_to_file;
pub mod request;
pub use request::{Need, Pending, Request};
pub mod scheduler;
pub use scheduler::{download_done, task_for, Task};
pub mod url_cache;
pub use url_cache::{DownloadState, UrlCacher};
