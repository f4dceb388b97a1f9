# zomboid_map

Readers and layout logic for Project Zomboid map data, verified with Verus.

- `src/` is the verified library: the `.lotheader` and `.lotpack` cell
  readers, the `.pack` texture-atlas reader and the sprite table it fills
  (page images decoded and cut into sprites), blended multi-cell sprites,
  the isometric projection, the painter's order of a viewport and the
  compositing of its sprites, the multi-cell world plane, the cells that
  cover an output tile and the compositing of that tile layer by layer, a
  bounded least-recently-used cell cache, the DeepZoom pyramid layout and
  the compositing of its coarser tiles, and a colour canvas.
- `tests/` exercises the library on hand-built files.
- `app/` holds what reads and writes the outside world: file loading and
  saving, the images built from the library's pixel buffers, the
  floating-point room outlines, the GPU window, and the command-line
  programs.
