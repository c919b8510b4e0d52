use derivers::activity::{
    record_position, visited_cells, Activity, ActivityError, FitField, RawActivity, Timestamp,
    TrackFile, TrackFormat,
};
use derivers::heat::{PixelHeatmap, TileHeatmap};
use derivers::slippy::{Coord, Viewport};

fn at(x: u32, y: u32) -> Coord {
    Coord { x, y }
}

/// A tile heatmap whose tiles are squares of `side` pixels, the first with
/// its near corner at `origin`.
fn tiles(
    view: Viewport,
    zoom: u8,
    min: Coord,
    max: Coord,
    side: u32,
    origin: (i32, i32),
) -> Option<TileHeatmap> {
    let first = at((origin.0 as i64 + side as i64) as u32, (origin.1 as i64 + side as i64) as u32);
    let second = at(first.x + side, first.y + side);
    TileHeatmap::from(view, zoom, min, max, first, second)
}

fn pixel_map() -> PixelHeatmap {
    let view = Viewport::from((0, 0), (0, 0), 10, 10, 10).unwrap();
    PixelHeatmap::from(view, false, false)
}

fn moment(secs: i64) -> Timestamp {
    Timestamp { secs, nanos: 0 }
}

#[test]
fn each_cell_is_kept_once_where_the_track_first_enters_it() {
    let a = at(1, 1);
    let b = at(2, 1);
    let c = at(3, 3);
    let raw = vec![Some(a), Some(a), Some(b), Some(a), Some(c)];
    let activity = Activity::new("Morning Ride".to_string(), moment(5), raw);
    let screen = activity.project_to_screen(&pixel_map()).unwrap();
    assert_eq!(screen.track_points, vec![a, b, c]);
    assert_eq!(screen.name, "Morning Ride");
    assert_eq!(screen.date, moment(5));
}

#[test]
fn points_outside_the_viewport_leave_no_trace() {
    let raw = vec![None, Some(at(4, 4)), None, Some(at(4, 4)), Some(at(0, 9))];
    assert_eq!(visited_cells(&raw, &pixel_map()), vec![at(4, 4), at(0, 9)]);
}

#[test]
fn a_track_without_visible_points_is_an_error() {
    let activity = Activity::new("x".to_string(), moment(0), vec![None, None]);
    assert_eq!(
        activity.project_to_screen(&pixel_map()).unwrap_err(),
        ActivityError::NoVisibleTrackPoints
    );
    let activity = Activity::new("x".to_string(), moment(0), vec![]);
    assert_eq!(
        activity.project_to_screen(&pixel_map()).unwrap_err(),
        ActivityError::NoVisibleTrackPoints
    );
}

#[test]
fn a_tile_heatmap_turns_away_tiles_outside_its_bounds() {
    let view = Viewport::from((0, 0), (0, 0), 1000, 1000, 10).unwrap();
    let heat = tiles(view, 14, at(100, 200), at(103, 202), 8, (-3, -5)).unwrap();
    let raw = vec![
        Some(at(99, 200)),
        Some(at(100, 200)),
        Some(at(102, 201)),
        Some(at(103, 201)),
        Some(at(102, 202)),
        Some(at(100, 199)),
        None,
        Some(at(100, 200)),
    ];
    assert_eq!(visited_cells(&raw, &heat), vec![at(100, 200), at(102, 201)]);
}

#[test]
fn activity_error_messages() {
    assert_eq!(ActivityError::NoVisibleTrackPoints.message(), "No visible track points");
    assert_eq!(ActivityError::UnknownFileType.message(), "Unknown file type");
}

fn file_of(path: &str) -> Result<TrackFile, ActivityError> {
    RawActivity::new("n".to_string(), moment(0), path.to_string()).file()
}

#[test]
fn track_files_are_told_by_their_names() {
    assert_eq!(
        file_of("activities/1.gpx"),
        Ok(TrackFile { format: TrackFormat::Gpx, gzip: false })
    );
    assert_eq!(
        file_of("activities/1.fit"),
        Ok(TrackFile { format: TrackFormat::Fit, gzip: false })
    );
    assert_eq!(
        file_of("activities/1.gpx.gz"),
        Ok(TrackFile { format: TrackFormat::Gpx, gzip: true })
    );
    assert_eq!(
        file_of("activities/1.fit.gz"),
        Ok(TrackFile { format: TrackFormat::Fit, gzip: true })
    );
}

#[test]
fn other_names_are_unknown_file_types() {
    assert_eq!(file_of("activities/1.tcx"), Err(ActivityError::UnknownFileType));
    assert_eq!(file_of("activities/1.tcx.gz"), Err(ActivityError::UnknownFileType));
    assert_eq!(file_of("activities/1.gz"), Err(ActivityError::UnknownFileType));
    assert_eq!(file_of("activities/gpx"), Err(ActivityError::UnknownFileType));
    assert_eq!(file_of("activities/1.GPX"), Err(ActivityError::UnknownFileType));
    assert_eq!(file_of(""), Err(ActivityError::UnknownFileType));
}

#[test]
fn raw_activity_keeps_what_it_was_made_of() {
    let raw = RawActivity::new("Ride".to_string(), moment(77), "activities/9.fit".to_string());
    assert_eq!(raw.name(), "Ride");
    assert_eq!(raw.date(), moment(77));
    assert_eq!(raw.path(), "activities/9.fit");
}

#[test]
fn a_raw_activity_with_its_track_is_an_activity() {
    let raw = RawActivity::new("Ride".to_string(), moment(77), "activities/9.fit".to_string());
    let a = at(1, 1);
    let activity = raw.parse(vec![Some(a), None, Some(a)]);
    let screen = activity.project_to_screen(&pixel_map()).unwrap();
    assert_eq!(screen.name, "Ride");
    assert_eq!(screen.date, moment(77));
    assert_eq!(screen.track_points, vec![a]);
}

fn field(name: &str, units: &str, value: Option<i32>) -> FitField {
    FitField { name: name.to_string(), units: units.to_string(), value }
}

#[test]
fn a_record_with_both_angles_has_a_position() {
    let fields = vec![
        field("timestamp", "s", None),
        field("position_lat", "semicircles", Some(623_000_000)),
        field("heart_rate", "bpm", None),
        field("position_long", "semicircles", Some(-95_000_000)),
        field("altitude", "m", Some(5)),
    ];
    assert_eq!(record_position(&fields), Some((-95_000_000, 623_000_000)));
}

#[test]
fn a_record_without_both_angles_has_no_position() {
    assert_eq!(record_position(&vec![]), None);
    assert_eq!(record_position(&vec![field("position_lat", "semicircles", Some(1))]), None);
    assert_eq!(record_position(&vec![field("position_long", "semicircles", Some(1))]), None);
    let degrees = vec![
        field("position_lat", "degrees", Some(1)),
        field("position_long", "semicircles", Some(2)),
    ];
    assert_eq!(record_position(&degrees), None);
    let no_number = vec![
        field("position_lat", "semicircles", Some(1)),
        field("position_long", "semicircles", None),
    ];
    assert_eq!(record_position(&no_number), None);
}

#[test]
fn the_last_field_of_a_name_decides() {
    let twice = vec![
        field("position_lat", "semicircles", Some(1)),
        field("position_long", "semicircles", Some(2)),
        field("position_lat", "semicircles", Some(3)),
    ];
    assert_eq!(record_position(&twice), Some((2, 3)));
    let spoiled = vec![
        field("position_lat", "semicircles", Some(1)),
        field("position_long", "semicircles", Some(2)),
        field("position_lat", "m", Some(3)),
    ];
    assert_eq!(record_position(&spoiled), None);
}
