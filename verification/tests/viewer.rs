use jellyscope::viewer::{
    composite_for, rgb_to_rgba, segments_from_counts, stretch_for, CompositeKind, Overlay,
    PlaneCache, PlaneError, StretchKind,
};

#[test]
fn segments_follow_each_other_in_the_buffer() {
    let segs = segments_from_counts(&[3, 4, 2], &[10, 11, 12, 13]);
    let got: Vec<(i64, i32, i32)> = segs.iter().map(|s| (s.id, s.start, s.count)).collect();
    assert_eq!(got, vec![(10, 0, 3), (11, 3, 4), (12, 7, 2)]);
    assert!(segments_from_counts(&[], &[1]).is_empty());
    assert_eq!(segments_from_counts(&[5, 6], &[1]).len(), 1);
}

#[test]
fn selected_boundaries_are_drawn_last() {
    let mut o = Overlay::new();
    o.set_boundaries(&[3, 4, 2], &[10, 11, 12]);
    o.set_selected(&[11, 11, 99]);
    assert!(o.is_selected(11));
    assert!(o.is_selected(99));
    assert!(!o.is_selected(10));
    let draws: Vec<(i32, i32, bool)> =
        o.boundary_draws().iter().map(|d| (d.start, d.count, d.selected)).collect();
    assert_eq!(draws, vec![(0, 3, false), (7, 2, false), (3, 4, true)]);
    o.set_selected(&[]);
    let draws: Vec<bool> = o.boundary_draws().iter().map(|d| d.selected).collect();
    assert_eq!(draws, vec![false, false, false]);
}

#[test]
fn centroids_are_drawn_only_when_shown_and_present() {
    let mut o = Overlay::new();
    o.set_centroids(7);
    assert_eq!(o.centroid_count(), 3);
    assert!(!o.draws_centroids());
    o.set_show_centroids(true);
    assert!(o.draws_centroids());
    o.set_centroids(1);
    assert_eq!(o.centroid_count(), 0);
    assert!(!o.draws_centroids());
}

#[test]
fn rgb_bytes_become_opaque_rgba() {
    assert_eq!(rgb_to_rgba(&[1, 2, 3, 4, 5, 6, 7]), vec![1, 2, 3, 255, 4, 5, 6, 255]);
    assert!(rgb_to_rgba(&[9, 9]).is_empty());
}

#[test]
fn plane_cache_checks_and_stores_planes() {
    let mut cache: PlaneCache<f64> = PlaneCache::new();
    assert_eq!(cache.plane(0).unwrap_err(), PlaneError::NotLoaded);
    cache.begin_cube(2, 2, 3);
    assert_eq!((cache.nx(), cache.ny()), (2, 2));
    assert_eq!(cache.check_load(0, 2, 2, 16), Ok(()));
    assert_eq!(cache.check_load(0, 2, 2, 15), Err(PlaneError::ByteLength));
    assert_eq!(cache.check_load(3, 2, 2, 15), Err(PlaneError::ByteLength));
    assert_eq!(cache.check_load(3, 2, 2, 16), Err(PlaneError::IndexOutOfRange));
    cache.store(1, vec![1.0, 2.0, 3.0, 4.0]);
    assert_eq!(cache.plane(1).unwrap(), &vec![1.0, 2.0, 3.0, 4.0]);
    assert_eq!(cache.plane(0).unwrap_err(), PlaneError::NotLoaded);
    assert_eq!(cache.plane(3).unwrap_err(), PlaneError::NotLoaded);
    cache.begin_cube(1, 1, 1);
    assert_eq!(cache.plane(0).unwrap_err(), PlaneError::NotLoaded);
}

#[test]
fn plane_errors_read_as_messages() {
    assert_eq!(PlaneError::ByteLength.message(), "plane byte length != nx*ny*4");
    assert_eq!(PlaneError::IndexOutOfRange.message(), "plane index out of range");
    assert_eq!(PlaneError::NotLoaded.message(), "filter plane not loaded");
}

#[test]
fn rendering_choices_by_name() {
    assert_eq!(stretch_for("log"), StretchKind::Log);
    assert_eq!(stretch_for("asinh"), StretchKind::LuptonAsinh);
    assert_eq!(stretch_for("Log"), StretchKind::LuptonAsinh);
    assert_eq!(composite_for("lupton"), CompositeKind::Lupton);
    assert_eq!(composite_for("percentile"), CompositeKind::PercentileAsinh);
}

#[test]
fn every_boundary_is_drawn_once() {
    let mut o = Overlay::new();
    o.set_boundaries(&[2, 2, 2, 2, 2], &[5, 6, 7, 8, 9]);
    o.set_selected(&[9, 5, 100]);
    let draws = o.boundary_draws();
    assert_eq!(draws.len(), 5);
    let mut starts: Vec<i32> = draws.iter().map(|d| d.start).collect();
    starts.sort_unstable();
    assert_eq!(starts, vec![0, 2, 4, 6, 8]);
    let flags: Vec<bool> = draws.iter().map(|d| d.selected).collect();
    assert_eq!(flags, vec![false, false, false, true, true]);
}

#[test]
fn load_plane_checks_then_stores() {
    let mut cache: PlaneCache<u8> = PlaneCache::new();
    cache.begin_cube(1, 2, 2);
    assert_eq!(cache.load_plane(0, 1, 2, 7, vec![1, 2]), Err(PlaneError::ByteLength));
    assert_eq!(cache.plane(0).unwrap_err(), PlaneError::NotLoaded);
    assert_eq!(cache.load_plane(2, 1, 2, 8, vec![1, 2]), Err(PlaneError::IndexOutOfRange));
    assert_eq!(cache.load_plane(1, 1, 2, 8, vec![1, 2]), Ok(()));
    assert_eq!(cache.plane(1).unwrap(), &vec![1, 2]);
    assert_eq!(cache.plane(0).unwrap_err(), PlaneError::NotLoaded);
}
