use std::path::Path;

use jellyscope::bake::{asset_path, cube_name_of, is_fits_file_name, pixmap_bytes, plane_file_name};

#[test]
fn pixmap_is_little_endian_i32() {
    assert_eq!(
        pixmap_bytes(&[-1, 0, 258, i32::MIN]),
        vec![255, 255, 255, 255, 0, 0, 0, 0, 2, 1, 0, 0, 0, 0, 0, 128]
    );
    let grid = [7, -2, 65536, 123_456_789];
    let expected: Vec<u8> = grid.iter().flat_map(|v: &i32| v.to_le_bytes()).collect();
    assert_eq!(pixmap_bytes(&grid), expected);
}

#[test]
fn asset_paths_are_dataset_cube_file() {
    assert_eq!(asset_path("A2744_F1228", "cut_datacube_nircam", "pixmap.i32"), "A2744_F1228/cut_datacube_nircam/pixmap.i32");
    assert_eq!(plane_file_name("F200W"), "F200W.f32");
    assert_eq!(asset_path("d", "c", &plane_file_name("F444W")), "d/c/F444W.f32");
}

#[test]
fn pixmap_bytes_decode_to_the_grid() {
    let grid = [i32::MIN, -1, 0, 1, 4096, i32::MAX];
    let bytes = pixmap_bytes(&grid);
    let back: Vec<i32> = bytes
        .chunks_exact(4)
        .map(|c| i32::from_le_bytes([c[0], c[1], c[2], c[3]]))
        .collect();
    assert_eq!(back, grid);
}

#[test]
fn fits_files_are_picked_by_extension() {
    for name in ["cut_datacube_nircam.fits", "a.b.fits", ".fits", "fits", "x.fit", "x.fitsx", "x.FITS", "x.", ".a.fits", "x.fits.gz"] {
        let want = Path::new(name).extension().is_some_and(|x| x == "fits");
        assert_eq!(is_fits_file_name(name), want, "{name}");
        let stem = Path::new(name).file_stem().map(|s| s.to_string_lossy().to_string()).unwrap_or_default();
        assert_eq!(cube_name_of(name), stem, "{name}");
    }
    assert_eq!(cube_name_of("cut_datacube_nircam.fits"), "cut_datacube_nircam");
}
