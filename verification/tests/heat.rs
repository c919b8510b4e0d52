use derivers::activity::Timestamp;
use derivers::heat::{add_points, Heatmap, PixelHeatmap, Ramp, TileHeatmap};
use derivers::raster::Color;
use derivers::slippy::{Coord, Viewport};

fn at(x: u32, y: u32) -> Coord {
    Coord { x, y }
}

/// A tile heatmap whose tiles are squares of `side` pixels, the first with
/// its near corner at `origin`.
fn tiles(
    view: Viewport,
    zoom: u8,
    min: Coord,
    max: Coord,
    side: u32,
    origin: (i32, i32),
) -> Option<TileHeatmap> {
    let first = at((origin.0 as i64 + side as i64) as u32, (origin.1 as i64 + side as i64) as u32);
    let second = at(first.x + side, first.y + side);
    TileHeatmap::from(view, zoom, min, max, first, second)
}

fn view(width: u32, height: u32) -> Viewport {
    Viewport::from((0, 0), (0, 0), width, height, 31).unwrap()
}

fn shade(level: u8) -> Color {
    Color { r: level, g: 0, b: 0, a: level }
}

const CLEAR: Color = Color { r: 0, g: 0, b: 0, a: 0 };

#[test]
fn a_fresh_heatmap_counts_nothing() {
    let heat = PixelHeatmap::from(view(4, 3), false, false);
    assert_eq!(heat.max_value(), 0);
    for y in 0..3 {
        for x in 0..4 {
            assert_eq!(heat.count_at(&at(x, y)), Some(0));
        }
    }
    assert_eq!(heat.count_at(&at(4, 0)), None);
    assert_eq!(heat.count_at(&at(0, 3)), None);
}

#[test]
fn points_at_different_cells_give_a_greatest_count_of_one() {
    let mut heat = PixelHeatmap::from(view(4, 3), false, false);
    let cells = [at(0, 0), at(3, 2), at(1, 1), at(2, 0)];
    for c in cells.iter() {
        heat.add_point(c);
    }
    assert_eq!(heat.max_value(), 1);
    for c in cells.iter() {
        assert_eq!(heat.count_at(c), Some(1));
    }
    assert_eq!(heat.count_at(&at(1, 0)), Some(0));
}

#[test]
fn the_greatest_count_follows_the_most_visited_cell() {
    let mut heat = PixelHeatmap::from(view(4, 3), false, false);
    for _ in 0..5 {
        heat.add_point(&at(1, 2));
    }
    for _ in 0..2 {
        heat.add_point(&at(2, 1));
    }
    assert_eq!(heat.max_value(), 5);
    assert_eq!(heat.count_at(&at(1, 2)), Some(5));
    assert_eq!(heat.count_at(&at(2, 1)), Some(2));
    assert_eq!(heat.count_at(&at(2, 2)), Some(0));
}

#[test]
fn decay_lowers_only_counters_above_the_amount() {
    let mut heat = PixelHeatmap::from(view(5, 1), false, false);
    let counts = [0u32, 1, 2, 3, 10];
    for (x, n) in counts.iter().enumerate() {
        for _ in 0..*n {
            heat.add_point(&at(x as u32, 0));
        }
    }
    assert_eq!(heat.max_value(), 10);
    heat.decay(2);
    let after: Vec<u32> = (0..5).map(|x| heat.count_at(&at(x, 0)).unwrap()).collect();
    assert_eq!(after, vec![0, 1, 2, 1, 8]);
    assert_eq!(heat.max_value(), 9);
}

#[test]
fn decay_on_a_tile_heatmap() {
    let mut heat = tiles(view(64, 64), 14, at(10, 20), at(12, 21), 8, (0, 0)).unwrap();
    for _ in 0..4 {
        heat.add_point(&at(11, 20));
    }
    heat.add_point(&at(10, 20));
    heat.decay(1);
    assert_eq!(heat.count_at(&at(11, 20)), Some(3));
    assert_eq!(heat.count_at(&at(10, 20)), Some(1));
    assert_eq!(heat.max_value(), 3);
}

#[test]
fn ramp_is_checked() {
    assert!(Ramp::from_levels(vec![]).is_none());
    assert!(Ramp::from_levels(vec![1]).is_none());
    assert!(Ramp::from_levels(vec![0]).is_some());
    assert!(Ramp::from_levels(vec![0, 255]).is_some());
    assert!(Ramp::from_levels(vec![0, 254]).is_none());
    assert!(Ramp::from_levels(vec![0, 5, 255]).is_none());
    assert!(Ramp::from_levels(vec![0, 100, 90, 255]).is_none());
    assert!(Ramp::from_levels(vec![0, 6, 6, 200, 255]).is_some());
}

#[test]
fn ramp_levels() {
    let ramp = Ramp::from_levels(vec![0, 90, 180, 255]).unwrap();
    assert_eq!(ramp.peak(), 3);
    assert_eq!(ramp.level(0), 0);
    assert_eq!(ramp.level(1), 90);
    assert_eq!(ramp.level(2), 180);
    assert_eq!(ramp.level(3), 255);
    assert_eq!(ramp.level(4), 255);
    assert_eq!(ramp.level(u32::MAX), 255);
    let flat = Ramp::from_levels(vec![0]).unwrap();
    assert_eq!(flat.level(0), 0);
    assert_eq!(flat.level(1), 255);
}

#[test]
fn an_unvisited_heatmap_renders_transparent() {
    let heat = PixelHeatmap::from(view(7, 5), false, false);
    let ramp = Ramp::from_levels(vec![0]).unwrap();
    let img = heat.as_image(&ramp);
    assert_eq!(img.width(), 7);
    assert_eq!(img.height(), 5);
    assert_eq!(img.as_raw(), &vec![0u8; 7 * 5 * 4]);
}

#[test]
fn the_most_visited_cell_renders_strongest() {
    let mut heat = PixelHeatmap::from(view(3, 2), false, false);
    for _ in 0..3 {
        heat.add_point(&at(2, 1));
    }
    heat.add_point(&at(0, 0));
    let ramp = Ramp::from_levels(vec![0, 131, 204, 255]).unwrap();
    let img = heat.as_image(&ramp);
    assert_eq!(img.get_pixel(2, 1), Some(shade(255)));
    assert_eq!(img.get_pixel(0, 0), Some(shade(131)));
    for (x, y) in [(1, 0), (2, 0), (0, 1), (1, 1)] {
        assert_eq!(img.get_pixel(x, y), Some(CLEAR));
    }
    assert_eq!(
        img.as_raw(),
        &vec![
            131, 0, 0, 131, 0, 0, 0, 0, 0, 0, 0, 0, //
            0, 0, 0, 0, 0, 0, 0, 0, 255, 0, 0, 255,
        ]
    );
}

#[test]
fn tile_heatmap_checks_its_description() {
    let v = view(64, 64);
    assert!(tiles(v, 14, at(10, 20), at(12, 21), 8, (0, 0)).is_some());
    assert!(tiles(v, 14, at(10, 20), at(10, 20), 8, (0, 0)).is_some());
    assert!(tiles(v, 14, at(13, 20), at(12, 21), 8, (0, 0)).is_none());
    assert!(tiles(v, 14, at(10, 22), at(12, 21), 8, (0, 0)).is_none());
    assert!(tiles(v, 14, at(10, 20), at(12, 21), 0, (0, 0)).is_none());
    assert!(tiles(v, 14, at(10, 20), at(12, 21), 8, (-8, -8)).is_some());
    assert!(tiles(v, 14, at(10, 20), at(12, 21), 8, (i32::MAX - 15, 0)).is_none());
    assert!(tiles(v, 14, at(10, 20), at(12, 21), 8, (i32::MAX - 16, 0)).is_some());
    assert!(tiles(v, 14, at(10, 20), at(12, 21), 8, (0, i32::MAX - 7)).is_none());
    assert!(tiles(v, 3, at(6, 6), at(8, 8), 8, (0, 0)).is_some());
    assert!(tiles(v, 3, at(6, 6), at(9, 8), 8, (0, 0)).is_none());
    assert!(tiles(v, 3, at(6, 6), at(8, 9), 8, (0, 0)).is_none());
    assert!(tiles(v, 0, at(0, 0), at(1, 1), 8, (0, 0)).is_some());
    assert!(tiles(v, 31, at(10, 20), at(12, 21), 8, (0, 0)).is_some());
    assert!(tiles(v, 32, at(10, 20), at(12, 21), 8, (0, 0)).is_none());
    let heat = tiles(v, 17, at(10, 20), at(12, 21), 8, (0, 0)).unwrap();
    assert_eq!(heat.zoom(), 17);
    assert_eq!(heat.count_at(&at(10, 20)), Some(0));
    assert_eq!(heat.count_at(&at(11, 20)), Some(0));
    assert_eq!(heat.count_at(&at(12, 20)), None);
    assert_eq!(heat.count_at(&at(9, 20)), None);
    assert_eq!(heat.count_at(&at(10, 21)), None);
    assert_eq!(heat.count_at(&at(10, 19)), None);
}

#[test]
fn tile_heatmap_draws_a_square_for_each_tile() {
    // Two by two tiles of 4 pixels, the first with its corner at (-2, 1).
    let mut heat = tiles(view(8, 10), 14, at(5, 7), at(7, 9), 4, (-2, 1)).unwrap();
    heat.add_point(&at(5, 7));
    heat.add_point(&at(6, 8));
    heat.add_point(&at(6, 8));
    let ramp = Ramp::from_levels(vec![0, 100, 255]).unwrap();
    let img = heat.as_image(&ramp);
    assert_eq!((img.width(), img.height()), (8, 10));
    for y in 0..10i32 {
        for x in 0..8i32 {
            let i = (x + 2).div_euclid(4);
            let j = (y - 1).div_euclid(4);
            let expected = match (i, j) {
                (0, 0) => shade(100),
                (1, 1) => shade(255),
                _ => CLEAR,
            };
            assert_eq!(img.get_pixel(x as u32, y as u32), Some(expected));
        }
    }
}

#[test]
fn captions_stand_at_the_bottom_left() {
    let date = Timestamp { secs: 1614971049, nanos: 0 };
    let ramp = Ramp::from_levels(vec![0]).unwrap();

    let both = PixelHeatmap::from(view(100, 150), true, true);
    let (img, labels) = both.as_image_with_overlay(&ramp, "Evening Run", &date);
    assert_eq!((img.width(), img.height()), (100, 150));
    assert_eq!(labels.len(), 2);
    assert_eq!((labels[0].x, labels[0].y, labels[0].text.as_str()), (20, 140, "March 05, 2021"));
    assert_eq!((labels[1].x, labels[1].y, labels[1].text.as_str()), (20, 130, "Evening Run"));

    let title = PixelHeatmap::from(view(100, 150), false, true);
    let (_, labels) = title.as_image_with_overlay(&ramp, "Evening Run", &date);
    assert_eq!(labels.len(), 1);
    assert_eq!((labels[0].x, labels[0].y, labels[0].text.as_str()), (20, 140, "Evening Run"));

    let dated = PixelHeatmap::from(view(100, 1080), true, false);
    let (_, labels) = dated.as_image_with_overlay(&ramp, "Evening Run", &date);
    assert_eq!(labels.len(), 1);
    assert_eq!((labels[0].x, labels[0].y, labels[0].text.as_str()), (20, 1008, "March 05, 2021"));

    let none = PixelHeatmap::from(view(100, 150), false, false);
    assert!(none.as_image_with_overlay(&ramp, "Evening Run", &date).1.is_empty());
}

#[test]
fn a_date_beyond_the_calendar_is_not_written() {
    let ramp = Ramp::from_levels(vec![0]).unwrap();
    let heat = PixelHeatmap::from(view(100, 150), true, true);
    let (_, labels) =
        heat.as_image_with_overlay(&ramp, "Run", &Timestamp { secs: i64::MAX, nanos: 0 });
    assert_eq!(labels.len(), 1);
    assert_eq!((labels[0].x, labels[0].y, labels[0].text.as_str()), (20, 130, "Run"));
}

#[test]
fn tile_heatmap_has_no_captions() {
    let heat = tiles(view(64, 64), 14, at(10, 20), at(12, 21), 8, (0, 0)).unwrap();
    let ramp = Ramp::from_levels(vec![0]).unwrap();
    let (img, labels) =
        heat.as_image_with_overlay(&ramp, "Run", &Timestamp { secs: 0, nanos: 0 });
    assert!(labels.is_empty());
    assert_eq!((img.width(), img.height()), (64, 64));
}

#[test]
fn add_points_stops_at_a_point_outside_the_grid() {
    let mut heat = PixelHeatmap::from(view(4, 3), false, false);
    let points = vec![at(0, 0), at(1, 1), at(0, 0), at(4, 1), at(2, 2)];
    assert_eq!(add_points(&mut heat, &points), 3);
    assert_eq!(heat.count_at(&at(0, 0)), Some(2));
    assert_eq!(heat.count_at(&at(1, 1)), Some(1));
    assert_eq!(heat.count_at(&at(2, 2)), Some(0));
    assert_eq!(heat.max_value(), 2);
    assert_eq!(add_points(&mut heat, &vec![]), 0);
    assert_eq!(add_points(&mut heat, &vec![at(2, 2)]), 1);
    assert_eq!(heat.count_at(&at(2, 2)), Some(1));
}

#[test]
fn pixel_heatmap_passes_projected_cells_on() {
    let heat = PixelHeatmap::from(view(4, 3), false, false);
    assert_eq!(heat.project_to_screen(&Some(at(1, 2))), Some(at(1, 2)));
    assert_eq!(heat.project_to_screen(&Some(at(4, 3))), Some(at(4, 3)));
    assert_eq!(heat.project_to_screen(&None), None);
}

#[test]
fn can_hold_tells_whether_the_counters_fit() {
    assert!(PixelHeatmap::can_hold(&view(1920, 1080)));
    assert_eq!(PixelHeatmap::can_hold(&view(1, u32::MAX)), usize::BITS >= 64);
    assert!(!PixelHeatmap::can_hold(&view(u32::MAX, u32::MAX)));
}

#[test]
fn a_frame_is_due_after_every_so_many_points() {
    assert!(derivers::heat::FrameClock::new(0).is_none());
    let mut clock = derivers::heat::FrameClock::new(3).unwrap();
    assert_eq!(clock.count(), 0);
    let due: Vec<bool> = (0..7).map(|_| clock.tick()).collect();
    assert_eq!(due, vec![false, false, true, false, false, true, false]);
    assert_eq!(clock.count(), 7);
    let mut every = derivers::heat::FrameClock::new(1).unwrap();
    assert!(every.tick());
    assert!(every.tick());
}

#[test]
fn the_square_of_a_tile_is_told_by_two_pixels() {
    let v = view(64, 64);
    let (min, max) = (at(10, 20), at(11, 21));
    let made = |first: Coord, second: Coord| TileHeatmap::from(v, 14, min, max, first, second);
    assert!(made(at(8, 8), at(16, 16)).is_some());
    assert!(made(at(8, 8), at(16, 0)).is_some());
    assert!(made(at(8, 8), at(8, 16)).is_none());
    assert!(made(at(8, 8), at(7, 16)).is_none());
    assert!(made(at(0, 0), at(i32::MAX as u32, 0)).is_some());
    assert!(made(at(0, 0), at(i32::MAX as u32 + 1, 0)).is_none());
    assert!(made(at(i32::MAX as u32, 0), at(u32::MAX, 0)).is_none());
    assert!(made(at(i32::MAX as u32 + 1, 0), at(u32::MAX, 0)).is_none());
    assert!(made(at(0, i32::MAX as u32 + 1), at(8, 0)).is_none());
    // A square of 4 pixels whose far corner lies at (2, 5) begins at (-2, 1).
    let mut heat = TileHeatmap::from(view(8, 10), 14, at(5, 7), at(7, 9), at(2, 5), at(6, 9)).unwrap();
    heat.add_point(&at(5, 7));
    let img = heat.as_image(&Ramp::from_levels(vec![0, 255]).unwrap());
    assert_eq!(img.get_pixel(0, 1), Some(shade(255)));
    assert_eq!(img.get_pixel(1, 4), Some(shade(255)));
    assert_eq!(img.get_pixel(2, 4), Some(CLEAR));
    assert_eq!(img.get_pixel(1, 5), Some(CLEAR));
    assert_eq!(img.get_pixel(0, 0), Some(CLEAR));
}
