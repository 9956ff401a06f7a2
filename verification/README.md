# overlaytxt

A transparent, click-through danmaku (scrolling comment) overlay for the
Windows desktop, drawn with Direct2D, DirectWrite and DirectComposition.

- `src/` is the verified library:
  - `track.rs`: the track system. Each new danmaku goes to the first
    least-loaded track; leaving danmaku give their track back.
  - `danmaku.rs`: the danmaku manager and its control commands. It admits danmaku (respecting an
    optional limit), retires those that scrolled off screen and keeps every
    track's load within the danmaku actually on it. What is drawn, and where,
    is an opaque payload supplied by the caller.
  - `color.rs`: straight-to-premultiplied alpha conversion, the check that
    image data holds all `width * height` RGBA pixels, and the brush
    cache key of an RGBA colour.
  - `error.rs`: the error type, its messages and what `wait` reports.
  - `frame_loop.rs`: what the render loop does with each window message.
- `app/` is the Windows side: the overlay window, the render thread, the
  Direct2D renderer and all floating-point geometry (positions, speeds, track
  pixel heights).
- `tests/` exercises the library.
