# Real City

A city builder whose people, buildings and traffic are simulated on the GPU.

- `src/` is the verified core: the tile grid, the road network and its
  decomposition into segments, buildings and zoning, the painting tools, the
  starter scenario, population bookkeeping, the frame schedule that slices
  the GPU work, the per-frame dispatch plan, readbacks and the inspector.
  Every function carries a contract proved with Verus.
- `tests/` exercises the library on concrete cities.
- `app/` is the Bevy application around it: windowing, GPU resources and
  passes, terrain noise, 3D view and UI.
