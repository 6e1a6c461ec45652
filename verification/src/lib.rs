//! Verified core of a small engine: a generational object pool, a bounded
//! array, the bit-packed primitive indices of the 2D drawer, a glyph atlas
//! cache, a byte serializer, the ring-buffer allocator, the docking layout
//! tree, the render graph's resource registry, the bindless descriptor
//! bookkeeping, the choice of GPU and queue families, the swapchain sizing
//! rules, the loading of font files and the widget activation rules of the UI.

pub mod pool;
pub mod dynamic_array;
pub mod drawer;
pub mod serialization;
pub mod rect;
pub mod ui;
pub mod profile;
pub mod ring_buffer;
pub mod glyph_cache;
pub mod docking;
pub mod resource_registry;
pub mod bindless;
pub mod swapchain;
pub mod device_selection;
pub mod font;
