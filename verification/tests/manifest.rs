use jellyscope::manifest::{default_rgb, wavelength_nm_of};

fn names(list: &[&str]) -> Vec<String> {
    list.iter().map(ToString::to_string).collect()
}

#[test]
fn prefers_named_rgb() {
    let filters: Vec<String> = ["F090W", "F115W", "F150W", "F200W"]
        .iter()
        .map(ToString::to_string)
        .collect();
    let rgb = default_rgb(&filters);
    assert_eq!(
        (rgb.r.as_str(), rgb.g.as_str(), rgb.b.as_str()),
        ("F200W", "F115W", "F090W")
    );
}

#[test]
fn falls_back_to_wavelength_rank() {
    // No named triple present; expect R=longest, B=shortest, G≈midpoint.
    let filters: Vec<String> = ["F140M", "F162M", "F444W"]
        .iter()
        .map(ToString::to_string)
        .collect();
    let rgb = default_rgb(&filters);
    assert_eq!(rgb.r, "F444W"); // longest λ
    assert_eq!(rgb.b, "F140M"); // shortest λ
    assert_eq!(rgb.g, "F162M"); // only remaining → nearest midpoint
}

#[test]
fn named_picks_mix_with_wavelength_rank() {
    // F200W is named for R; G is the known filter nearest the midpoint of
    // 0.704 and 4.421 µm (2.5625), B the shortest.
    let rgb = default_rgb(&names(&["F200W", "F070W", "F444W", "F150W"]));
    assert_eq!(rgb.r, "F200W");
    assert_eq!(rgb.g, "F200W");
    assert_eq!(rgb.b, "F070W");
    assert_eq!(rgb.texture_percentile, "");
    assert_eq!(rgb.texture_lupton, "");
}

#[test]
fn midpoint_pick_is_the_nearest_known_filter() {
    // Midpoint of 1.404 and 1.990 is 1.697: F162M (1.627) and F182M (1.845)
    // are 0.070 and 0.148 away, so F162M wins outright.
    let rgb = default_rgb(&names(&["F140M", "F182M", "F162M", "F200W"]));
    assert_eq!(rgb.r, "F200W");
    assert_eq!(rgb.g, "F162M");
    assert_eq!(rgb.b, "F140M");
}

#[test]
fn position_fallback_with_unknown_filters() {
    let rgb = default_rgb(&names(&["A", "B", "C", "D"]));
    assert_eq!((rgb.r.as_str(), rgb.g.as_str(), rgb.b.as_str()), ("D", "C", "A"));
}

#[test]
fn position_fallback_keeps_named_picks() {
    let rgb = default_rgb(&names(&["X", "F115W", "Y"]));
    assert_eq!((rgb.r.as_str(), rgb.g.as_str(), rgb.b.as_str()), ("Y", "F115W", "X"));
}

#[test]
fn no_filters_give_empty_names() {
    let rgb = default_rgb(&[]);
    assert_eq!((rgb.r.as_str(), rgb.g.as_str(), rgb.b.as_str()), ("", "", ""));
}

#[test]
fn wavelength_table_lookup() {
    assert_eq!(wavelength_nm_of("F200W"), Some(1990));
    assert_eq!(wavelength_nm_of("F070W"), Some(704));
    assert_eq!(wavelength_nm_of("F480M"), Some(4834));
    assert_eq!(wavelength_nm_of("F999W"), None);
    assert_eq!(wavelength_nm_of("f200w"), None);
}

#[test]
fn picks_depend_only_on_the_known_names() {
    let a = default_rgb(&names(&["F140M", "F162M", "F444W"]));
    let b = default_rgb(&names(&["X", "F444W", "F140M", "Y", "F162M", "F444W"]));
    assert_eq!((a.r, a.g, a.b), (b.r, b.g, b.b));
}

#[test]
fn midpoint_tie_between_the_extremes_follows_double_precision() {
    // 0.704 and 1.501 µm: in double precision the midpoint lies nearer 1.501.
    let rgb = default_rgb(&names(&["F070W", "F150W", "F150W"]));
    assert_eq!((rgb.r.as_str(), rgb.g.as_str(), rgb.b.as_str()), ("F150W", "F150W", "F070W"));
    let (lo, hi) = (0.704_f64, 1.501_f64);
    let mid = f64::midpoint(lo, hi);
    assert!((hi - mid).abs() < (lo - mid).abs());
}

#[test]
fn midpoint_tie_between_the_extremes_can_go_to_the_shorter() {
    // 0.704 and 0.901 µm: the double-precision midpoint is not nearer 0.901.
    let rgb = default_rgb(&names(&["F090W", "F070W", "F070W"]));
    assert_eq!(rgb.g, "F070W");
    let (lo, hi) = (0.704_f64, 0.901_f64);
    let mid = f64::midpoint(lo, hi);
    assert!((hi - mid).abs() >= (lo - mid).abs());
}

#[test]
fn midpoint_tie_inside_the_range_goes_to_the_shorter() {
    // 1.845 and 4.280 µm are equally near the midpoint of 1.501 and 4.624.
    let rgb = default_rgb(&names(&["F150W", "F182M", "F430M", "F460M"]));
    assert_eq!(rgb.g, "F182M");
}
