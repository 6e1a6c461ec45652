# exo_engine

The core of a small Vulkan engine with an immediate-mode UI, written in Verus:
the data structures and rules the engine relies on carry contracts that Verus
proves, and the floating-point, font, file and GPU code around them is ordinary
Rust.

## Layout

- `src/` — the verified library.
  - `pool` — generational pool: handles stay valid until their value is
    removed, and a removed handle is never live again.
  - `dynamic_array` — an array bounded by a const capacity.
  - `drawer` — packed RGBA colors, the bit fields of a primitive index, and the
    index and alignment bookkeeping of the 2D drawer's vertex buffer.
  - `glyph_cache` — glyphs packed in a texture atlas (etagere), evicted least
    recently used first.
  - `serialization` — a byte stream (bytes) with `Serializable` values and
    the round-trip laws of asset records.
  - `ring_buffer` — per-frame sub-allocation in which no allocation straddles
    the offset where the frame before started.
  - `docking` — the docking layout: a tree of splitters and tab containers,
    tab views, and the events that move tabs around.
  - `resource_registry` — which images and framebuffers the render graph still
    uses, what to release at the start of a frame, and which framebuffer a
    pass can reuse.
  - `bindless` — the slot bookkeeping of the bindless descriptor set and the
    descriptor updates it calls for.
  - `device_selection` — which GPU and which queue families the device uses.
  - `swapchain` — the swapchain's size and image count.
  - `font` — a font file held in memory, with the offset of the selected
    font's table directory (swash).
  - `ui` — widget ids, focus, activation and clicks.
  - `rect`, `profile` — split directions; profiler hooks.
- `tests/` — tests of the library on concrete values.
- `app/` — the parts that work on `f32` geometry, fonts (swash), files and
  Vulkan (erupt): rectangles, text shaping and layout, drawing, widgets,
  docking drawing, material serialization, image barrier tables, and the
  device calls that carry out the library's decisions.
