# jellyscope

Bakes JWST NIRCam datacubes and clump catalogs into a static site, and views
them in the browser with WebGL.

- `src/` — the verified library (Verus): CSV reading of the clump catalogs,
  the pixel→clump grid, convex-hull clump boundaries (monotone chain, proved
  to be a strictly convex counter-clockwise polygon of distinct pixels that
  encloses every pixel of the clump), FITS header layout checks, the
  default RGB filter choice, the little-endian pixel map, and the viewer's
  overlay bookkeeping and flux-plane cache.
- `tests/` — tests of the library.
- `app/` — the `bake` program (file and directory I/O, FITS data, WCS, the
  floating-point stretches and composites, JSON output) and the WASM viewer
  (WebGL, camera), built on the library.
