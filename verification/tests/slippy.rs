use derivers::slippy::{tiles_across, Viewport, MAX_ZOOM, TILE_SIZE};

#[test]
fn viewport_reports_what_it_was_made_from() {
    let view = Viewport::from((544, 370), (100, 17), 1920, 1080, 10).unwrap();
    assert_eq!(view.pixel_size(), (1920, 1080));
    assert_eq!(view.pixel_offsets(), (100, 17));
    assert_eq!(view.tile_offsets(), (544, 370));
    assert_eq!(view.last_tile(), (551, 374));
    assert_eq!(view.tile_xs(), 544..=551);
    assert_eq!(view.tile_ys(), 370..=374);
    assert_eq!(view.zoom(), 10);
}

#[test]
fn viewport_checks_its_description() {
    assert!(Viewport::from((5, 5), (255, 255), 1, 1, MAX_ZOOM).is_some());
    assert!(Viewport::from((5, 5), (0, 0), 1, 1, 10).is_some());
    assert!(Viewport::from((5, 5), (0, 0), 0, 1, 10).is_none());
    assert!(Viewport::from((5, 5), (0, 0), 1, 0, 10).is_none());
    assert!(Viewport::from((5, 5), (TILE_SIZE, 0), 1, 1, 10).is_none());
    assert!(Viewport::from((5, 5), (0, TILE_SIZE), 1, 1, 10).is_none());
    assert!(Viewport::from((5, 5), (0, 0), 1, 1, MAX_ZOOM + 1).is_none());
}

#[test]
fn a_viewport_spans_no_more_tiles_than_it_shows() {
    let last = |offset: u32, size: u32| {
        Viewport::from((5, 7), (offset, offset), size, size, 10).unwrap().last_tile()
    };
    assert_eq!(last(0, 1), (5, 7));
    assert_eq!(last(0, 256), (5, 7));
    assert_eq!(last(0, 257), (6, 8));
    assert_eq!(last(255, 1), (5, 7));
    assert_eq!(last(255, 2), (6, 8));
    assert_eq!(last(1, 511), (6, 8));
    assert_eq!(last(1, 512), (7, 9));
    let wide = Viewport::from((5, 7), (10, 20), 1000, 100, 10).unwrap();
    assert_eq!(wide.tile_xs(), 5..=8);
    assert_eq!(wide.tile_ys(), 7..=7);
}

#[test]
fn a_viewport_stays_within_the_tiles_of_its_zoom_level() {
    assert!(Viewport::from((0, 0), (0, 0), 256, 256, 0).is_some());
    assert!(Viewport::from((0, 0), (0, 0), 257, 1, 0).is_none());
    assert!(Viewport::from((0, 0), (0, 1), 1, 256, 0).is_none());
    assert!(Viewport::from((1, 0), (0, 0), 1, 1, 0).is_none());
    assert!(Viewport::from((1023, 1023), (0, 0), 256, 256, 10).is_some());
    assert!(Viewport::from((1023, 1023), (0, 0), 257, 256, 10).is_none());
    assert!(Viewport::from((1023, 1023), (0, 0), 256, 257, 10).is_none());
    assert!(Viewport::from((1024, 0), (0, 0), 1, 1, 10).is_none());
    assert!(Viewport::from((0, 0), (0, 0), u32::MAX, u32::MAX, MAX_ZOOM).is_some());
    assert!(Viewport::from((u32::MAX, 0), (255, 0), u32::MAX, 1, MAX_ZOOM).is_none());
}

#[test]
fn tile_size() {
    assert_eq!(TILE_SIZE, 256);
    assert_eq!(MAX_ZOOM, 31);
}

#[test]
fn each_zoom_level_doubles_the_tiles() {
    assert_eq!(tiles_across(0), 1);
    assert_eq!(tiles_across(1), 2);
    assert_eq!(tiles_across(10), 1024);
    assert_eq!(tiles_across(17), 131072);
    assert_eq!(tiles_across(MAX_ZOOM), 2147483648);
}
