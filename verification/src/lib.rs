//! Verified core of the Vello renderer: anti-aliasing support sets, the
//! sizing of GPU bump buffers, and the image atlas cache.

pub mod aa;
pub mod atlas;
pub mod bump;
pub mod image_cache;
