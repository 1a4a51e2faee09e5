# fractal

Draws the metabrot set, caching its samples in a quadtree that worker threads refine where the
window looks and reclaim where it no longer does.

The library under `src/` is verified with Verus:

- `complex`: fixed point numbers with 58 fraction bits, the squares of the quadtree (`Domain`),
  rectangles of the plane (`Window`), and conversions to and from the bits of `f64` numbers.
- `tree`: the quadtree, its nodes held in an arena and handed out four at a time. Refining splits
  a shallowest leaf where the window looks; inserting stores a sample; retiring detaches a block of
  children where nodes are too small for the window; freeing returns a detached block and
  everything below it to the free list. `tree::quadtree::laws` states what these operations keep.
- `pool`: the decisions of a worker thread (which task comes next, when a retired block may be
  freed) and of a frame (which pixels change).
- `sample`: the window in which a point's sample searches.

`app/` holds the program around it: the window, the threads, the sampling in floating point, and
the camera.
