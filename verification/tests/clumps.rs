use std::collections::BTreeSet;

use jellyscope::clumps::{column_index, read_pixels, read_properties, ClumpCatalog, ClumpError};
use jellyscope::text::parse_bool;

const PROPERTIES: &str = "clump_id,area_pix,area_arcsec2,r_eff_arcsec,x0,y0,area_kpc2,r_eff_kpc,inside,component
0,121,0.0484,0.124,70.5,21.0,1.2,0.55,False,outside
1,40,0.016,0.07,100.2,150.8,0.4,0.3,True,disk
";

// Clump 0: its scipy hull vertices (first pixel (63, 13)) plus interior pixels.
const PIXELS: &str = "clump_id,x,y
0,63,13
0,67,13
0,70,14
0,74,17
0,77,20
0,78,22
0,80,27
0,80,29
0,77,29
0,64,18
0,63,17
0,66,15
0,70,20
0,72,22
0,75,25
0,78,28
0,68,16
0,65,16
1,100,150
1,101,150
1,100,151
1,500,10
";

fn load() -> Option<ClumpCatalog> {
    // Cube is 172×221; clump pixels index into that grid.
    ClumpCatalog::load(
        "clumps_properties.csv",
        PROPERTIES,
        "clumps_pixels.csv",
        PIXELS,
        172,
        221,
    )
    .ok()
}

#[test]
fn loads_properties() {
    let Some(cat) = load() else { return };
    let c0 = cat.properties(0).expect("clump 0");
    assert_eq!(c0.area_pix, 121);
    assert_eq!(c0.component, "outside");
    assert!(!c0.inside);
    let c1 = cat.properties(1).expect("clump 1");
    assert_eq!(c1.component, "disk");
    assert!(c1.inside);
}

// Shoelace area of a closed polygon, for the hull-area check.
fn polygon_area(poly: &[(u32, u32)]) -> f64 {
    let mut a = 0.0;
    for w in poly.windows(2) {
        a += f64::from(w[0].0) * f64::from(w[1].1) - f64::from(w[1].0) * f64::from(w[0].1);
    }
    f64::abs(a) / 2.0
}

#[test]
fn hull_matches_scipy_as_a_set() {
    let Some(cat) = load() else { return };
    // scipy ConvexHull of clump 0: 11 vertices, area 130.0.
    let want: BTreeSet<(i64, i64)> = [
        (63, 17),
        (63, 13),
        (67, 13),
        (70, 14),
        (74, 17),
        (77, 20),
        (78, 22),
        (80, 27),
        (80, 29),
        (77, 29),
        (64, 18),
    ]
    .iter()
    .map(|&(x, y)| (x, y))
    .collect();

    let mut boundary = cat.boundary(0);
    boundary.pop(); // drop the repeated closing point
    let got: BTreeSet<(i64, i64)> = boundary
        .iter()
        .map(|&(x, y)| (i64::from(x), i64::from(y)))
        .collect();
    assert_eq!(got, want, "hull vertex set must match scipy");
    assert!((polygon_area(&cat.boundary(0)) - 130.0).abs() < 1e-6);
}

#[test]
fn pixel_lookup_hits_and_misses() {
    let Some(cat) = load() else { return };
    assert_eq!(cat.id_at_pixel(63, 13), Some(0)); // first pixel of clump 0
    assert_eq!(cat.id_at_pixel(0, 0), None); // empty corner
    assert_eq!(cat.id_at_pixel(9999, 9999), None); // out of bounds
}

#[test]
fn catalog_ids_are_sorted_and_boundaries_closed() {
    let cat = load().expect("catalog loads");
    assert_eq!((cat.nx(), cat.ny()), (172, 221));
    assert_eq!(cat.ids(), vec![0, 1]);
    let b1 = cat.boundary(1);
    assert_eq!(b1, vec![(100, 150), (101, 150), (100, 151), (100, 150)]);
    assert!(cat.boundary(7).is_empty());
    assert_eq!(cat.id_at_pixel(101, 150), Some(1));
    assert_eq!(cat.id_at_pixel(171, 220), None);
    assert_eq!(cat.id_at_pixel(172, 0), None);
    let grid = cat.pixel_clump_grid();
    assert_eq!(grid.len(), 172 * 221);
    assert_eq!(grid[13 * 172 + 63], 0);
    assert_eq!(grid[150 * 172 + 100], 1);
    assert_eq!(grid[0], -1);
}

#[test]
fn out_of_grid_pixels_are_dropped() {
    let (grid, lists) = read_pixels("p.csv", "clump_id,x,y\n5,1,1\n5,-1,0\n5,2,0\n6,0,2\n", 2, 2)
        .expect("pixels read");
    assert_eq!(grid, vec![-1, -1, -1, 5]);
    assert_eq!(lists.get(&5), Some(&vec![(1, 1)]));
    assert_eq!(lists.get(&6), None);
}

#[test]
fn later_pixel_rows_overwrite_the_grid() {
    let (grid, lists) = read_pixels("p.csv", "clump_id,x,y\n1,0,0\n\n2,0,0\n", 1, 1).expect("read");
    assert_eq!(grid, vec![2]);
    assert_eq!(lists.get(&1), Some(&vec![(0, 0)]));
    assert_eq!(lists.get(&2), Some(&vec![(0, 0)]));
}

#[test]
fn clump_ids_beyond_i32_leave_the_cell_empty() {
    let (grid, lists) = read_pixels("p.csv", "clump_id,x,y\n4294967296,0,0\n", 1, 1).expect("read");
    assert_eq!(grid, vec![-1]);
    assert_eq!(lists.get(&4294967296), Some(&vec![(0, 0)]));
}

#[test]
fn malformed_pixel_row_names_its_line() {
    let err = read_pixels("p.csv", "clump_id,x,y\n1,0,0\n1,zero,0\n", 4, 4).unwrap_err();
    assert!(matches!(err, ClumpError::BadRow { ref path, line: 3 } if path == "p.csv"));
    let err = read_pixels("p.csv", "clump_id,x,y\n1,0\n", 4, 4).unwrap_err();
    assert!(matches!(err, ClumpError::BadRow { line: 2, .. }));
}

#[test]
fn missing_pixel_column_is_reported() {
    let err = read_pixels("p.csv", "clump_id,x\n1,0\n", 4, 4).unwrap_err();
    assert!(
        matches!(err, ClumpError::MissingColumn { ref path, ref column } if path == "p.csv" && column == "y")
    );
}

#[test]
fn malformed_property_row_names_its_line() {
    let text = "clump_id,area_pix,area_arcsec2,r_eff_arcsec,x0,y0,area_kpc2,r_eff_kpc,inside,component
3,9,1.0,1.0,1.0,1.0,1.0,1.0,true,disk

4,nine,1.0,1.0,1.0,1.0,1.0,1.0,true,disk
";
    let err = read_properties("props.csv", text).unwrap_err();
    assert!(matches!(err, ClumpError::BadRow { ref path, line: 4 } if path == "props.csv"));
    let bad_real = text.replace("nine", "9").replace("4,9,1.0", "4,9,abc");
    let err = read_properties("props.csv", &bad_real).unwrap_err();
    assert!(matches!(err, ClumpError::BadRow { line: 4, .. }));
}

#[test]
fn missing_property_column_is_reported() {
    let err = read_properties("props.csv", "clump_id,area_pix\n1,2\n").unwrap_err();
    assert!(matches!(err, ClumpError::MissingColumn { ref column, .. } if column == "area_arcsec2"));
}

#[test]
fn properties_keep_text_fields_and_last_duplicate() {
    let text = "component, clump_id ,area_pix,area_arcsec2,r_eff_arcsec,x0,y0,area_kpc2,r_eff_kpc,inside
 tail , 7 ,3,1e-3,0.5,10.25,11.5,nan,inf,1
tail,7,4,2,0.5,10.25,11.5,1,1,no
";
    let props = read_properties("props.csv", text).expect("properties read");
    assert_eq!(props.len(), 1);
    let p = &props[&7];
    assert_eq!(p.clump_id, 7);
    assert_eq!(p.area_pix, 4);
    assert_eq!(p.area_arcsec2, "2");
    assert_eq!(p.x0, "10.25");
    assert_eq!(p.component, "tail");
    assert!(!p.inside);
    let first_only = text.lines().take(2).collect::<Vec<_>>().join("\n");
    let props = read_properties("props.csv", &first_only).expect("read");
    let p = &props[&7];
    assert_eq!(p.area_arcsec2, "1e-3");
    assert_eq!(p.area_kpc2, "nan");
    assert_eq!(p.component, "tail");
    assert!(p.inside);
}

#[test]
fn properties_match_the_catalog() {
    let cat = load().expect("catalog loads");
    let p = cat.properties(0).expect("clump 0");
    assert_eq!(p.x0, "70.5");
    assert_eq!(p.r_eff_kpc, "0.55");
    assert!(cat.properties(2).is_none());
}

#[test]
fn load_reports_the_property_file_first() {
    let err = ClumpCatalog::load("a.csv", "clump_id\nx\n", "b.csv", "clump_id,x\n", 2, 2).unwrap_err();
    assert!(matches!(err, ClumpError::BadRow { ref path, line: 2 } if path == "a.csv"));
    let err = ClumpCatalog::load("a.csv", "clump_id\n1\n", "b.csv", "clump_id,x\n", 2, 2).unwrap_err();
    assert!(matches!(err, ClumpError::MissingColumn { ref path, ref column } if path == "a.csv" && column == "area_pix"));
    let err = ClumpCatalog::load("a.csv", PROPERTIES, "b.csv", "clump_id,x\n", 2, 2).unwrap_err();
    assert!(matches!(err, ClumpError::MissingColumn { ref path, ref column } if path == "b.csv" && column == "y"));
}

#[test]
fn column_index_trims_names() {
    let header: Vec<char> = " clump_id , x,y ".chars().collect();
    let cols = column_index(&header);
    let names: Vec<String> = cols.iter().map(|c| c.iter().collect()).collect();
    assert_eq!(names, vec!["clump_id", "x", "y"]);
}

#[test]
fn parse_bool_accepts_three_spellings() {
    let t = |s: &str| parse_bool(&s.chars().collect::<Vec<char>>());
    assert!(t("True"));
    assert!(t("true"));
    assert!(t("1"));
    assert!(t(" True "));
    assert!(!t("TRUE"));
    assert!(!t("yes"));
    assert!(!t("False"));
    assert!(!t(""));
}

#[test]
fn grid_cells_name_clumps_that_list_the_pixel() {
    let (grid, lists) = read_pixels(
        "p.csv",
        "clump_id,x,y\n1,0,0\n2,1,0\n1,1,0\n3,2,1\n3,9,9\n2,0,1\n",
        3,
        2,
    )
    .expect("read");
    for y in 0..2u32 {
        for x in 0..3u32 {
            let cell = grid[(y * 3 + x) as usize];
            if cell != -1 {
                let list = lists.get(&i64::from(cell)).expect("listed clump");
                assert!(list.contains(&(x, y)));
            }
        }
    }
    for list in lists.values() {
        assert!(!list.is_empty());
        assert!(list.iter().all(|&(x, y)| x < 3 && y < 2));
    }
    assert_eq!(grid, vec![1, 1, -1, 2, -1, 3]);
}

#[test]
fn properties_are_keyed_by_their_id() {
    let props = read_properties("props.csv", PROPERTIES).expect("read");
    for (k, p) in &props {
        assert_eq!(*k, p.clump_id);
    }
}

#[test]
fn small_clumps_are_closed_sorted_loops() {
    let (_, lists) = read_pixels("p.csv", "clump_id,x,y\n4,5,1\n4,2,3\n8,0,0\n", 6, 6).expect("read");
    assert_eq!(lists.get(&4), Some(&vec![(5, 1), (2, 3)]));
    let cat = ClumpCatalog::load(
        "a.csv",
        "clump_id,area_pix,area_arcsec2,r_eff_arcsec,x0,y0,area_kpc2,r_eff_kpc,inside,component\n",
        "b.csv",
        "clump_id,x,y\n4,5,1\n4,2,3\n8,0,0\n",
        6,
        6,
    )
    .expect("catalog");
    assert_eq!(cat.boundary(4), vec![(2, 3), (5, 1), (2, 3)]);
    assert_eq!(cat.boundary(8), vec![(0, 0), (0, 0)]);
    assert!(cat.ids().is_empty());
}

#[test]
fn clumps_are_listed_only_for_in_grid_pixels() {
    let (_, lists) = read_pixels("p.csv", "clump_id,x,y\n1,5,5\n2,0,0\n1,-1,0\n", 2, 2).expect("read");
    assert_eq!(lists.keys().copied().collect::<Vec<i64>>(), vec![2]);
}
