use fitrs::Hdu;
use jellyscope::fits::{check_shape, header_int, read_cube_layout, read_filter_names, Cube, FitsError};

fn cube_hdu(nx: usize, ny: usize, names: &[&str]) -> Hdu {
    let data = vec![0.0f64; nx * ny * names.len()];
    let mut hdu = Hdu::new(&[nx, ny, names.len()], data);
    for (i, name) in names.iter().enumerate() {
        hdu.insert(format!("FILTER{}", i + 1), *name);
    }
    hdu
}

#[test]
fn layout_reads_axes_and_trimmed_filter_names() {
    let hdu = cube_hdu(3, 2, &[" F200W ", "F444W"]);
    let layout = read_cube_layout(&hdu).expect("layout");
    assert_eq!((layout.nx, layout.ny), (3, 2));
    assert_eq!(layout.filters, vec!["F200W", "F444W"]);
}

#[test]
fn filter_names_beyond_nine_use_two_digits() {
    let names: Vec<String> = (1..=11).map(|i| format!("F{i:03}W")).collect();
    let refs: Vec<&str> = names.iter().map(String::as_str).collect();
    let hdu = cube_hdu(1, 1, &refs);
    let filters = read_filter_names(&hdu, 11).expect("names");
    assert_eq!(filters, names);
}

#[test]
fn missing_filter_name_is_a_count_error() {
    let mut hdu = Hdu::new(&[2, 2, 3], vec![0.0f64; 12]);
    hdu.insert("FILTER1", "F090W");
    hdu.insert("FILTER2", 7);
    hdu.insert("FILTER3", "F200W");
    let err = read_cube_layout(&hdu).unwrap_err();
    assert!(matches!(err, FitsError::FilterCount { expected: 3, found: 1 }));
}

#[test]
fn missing_axis_is_reported_by_name() {
    let err = read_cube_layout(&Hdu::empty()).unwrap_err();
    assert!(matches!(err, FitsError::MissingInt("NAXIS1")));
    let hdu = Hdu::new(&[4, 5], vec![0.0f64; 20]);
    let err = read_cube_layout(&hdu).unwrap_err();
    assert!(matches!(err, FitsError::MissingInt("NAXIS3")));
}

#[test]
fn header_int_wants_a_non_negative_integer() {
    let mut hdu = Hdu::empty();
    hdu.insert("NEG", -3);
    hdu.insert("TEXT", "12");
    hdu.insert("REAL", 1.5);
    hdu.insert("GOOD", 12);
    hdu.insert("GOOD", 13);
    assert!(matches!(header_int(&hdu, "NEG"), Err(FitsError::MissingInt("NEG"))));
    assert!(matches!(header_int(&hdu, "TEXT"), Err(FitsError::MissingInt("TEXT"))));
    assert!(matches!(header_int(&hdu, "REAL"), Err(FitsError::MissingInt("REAL"))));
    assert!(matches!(header_int(&hdu, "NONE"), Err(FitsError::MissingInt("NONE"))));
    // The first card with the key wins.
    assert!(matches!(header_int(&hdu, "GOOD"), Ok(12)));
}

#[test]
fn shape_check_compares_the_voxel_count() {
    assert!(check_shape(24, 2, 3, 4).is_ok());
    assert!(check_shape(0, 5, 5, 0).is_ok());
    let err = check_shape(23, 2, 3, 4).unwrap_err();
    assert!(matches!(err, FitsError::ShapeMismatch { len: 23, nx: 2, ny: 3, n_filters: 4 }));
}

#[test]
fn cube_slices_are_filter_planes() {
    let hdu = cube_hdu(2, 2, &["F090W", "F200W"]);
    let layout = read_cube_layout(&hdu).expect("layout");
    let data: Vec<i32> = (0..8).collect();
    let cube = Cube::from_layout(layout, data).expect("cube");
    assert_eq!((cube.nx(), cube.ny(), cube.n_filters()), (2, 2, 2));
    assert_eq!(cube.filters()[1], "F200W");
    assert_eq!(cube.slice(0), &[0, 1, 2, 3]);
    assert_eq!(cube.slice(1), &[4, 5, 6, 7]);
}

#[test]
fn cube_with_wrong_data_length_is_refused() {
    let hdu = cube_hdu(2, 2, &["F090W"]);
    let layout = read_cube_layout(&hdu).expect("layout");
    let err = Cube::from_layout(layout, vec![0u8; 5]).unwrap_err();
    assert!(matches!(err, FitsError::ShapeMismatch { len: 5, nx: 2, ny: 2, n_filters: 1 }));
}
