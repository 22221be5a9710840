//! Jellyscope: the integer and text logic behind baking NIRCam datacubes into a
//! static site — CSV catalogs of clumps, their convex-hull boundaries, FITS
//! header layout checks, default RGB filter choice, and the viewer's overlay
//! bookkeeping.

pub mod manifest;
pub mod text;
pub mod clumps;
pub mod hull;
pub mod fits;
pub mod viewer;
pub mod bake;
