//! Incremental regeneration of map tiles from a grid of region containers.
//!
//! The library decides which chunks of which regions must be re-rendered
//! since the last run, and holds the bookkeeping of the rendering pipeline:
//! the chunk cache with its eviction rule, the set of regions still pending,
//! and the compositing of shaded chunk patches into region canvases.

pub mod coords;
pub mod timestamps;
pub mod workmap;
pub mod dimension;
pub mod pipeline;
pub mod canvas;
pub mod names;
pub mod progress;

pub use coords::{CLoc, RLoc, InvalidOffsetError, RegionBounds, SIDE};
pub use timestamps::{RegionTimestamps, ChunkTimestamp, TruncatedError, TABLE_BYTES, TABLE_LEN, TABLE_OFFSET};
pub use workmap::WorkMap;
pub use dimension::{Dimension, RegionSource, region_in_bounds, bounds_from_ranges};
pub use pipeline::{RemainingSet, ChunkCache, RegionCache, RenderState};
pub use canvas::{Rgba, blit, blank_canvas, canvas_from_rgba, canvas_to_rgba, draw_chunk, north_chunk};
pub use canvas::{CHUNK_PIXELS, TILE_PIXELS, TILE_AREA};
pub use names::{parse_region_name, to_cache_name, to_image_name};
pub use progress::{RegionProgress, region_events};
