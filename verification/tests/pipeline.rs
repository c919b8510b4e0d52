use derivers::heat::{add_points, Heatmap, PixelHeatmap};
use derivers::slippy::{Coord, Viewport};
use derivers::strava::{DataExport, Record};

fn at(x: u32, y: u32) -> Coord {
    Coord { x, y }
}

#[test]
fn two_activities_accumulate_in_the_order_of_their_dates() {
    // B is listed first but is the later of the two.
    let lines = vec![
        Some(Record {
            filename: "b.gpx".to_string(),
            date: "Mar 5, 2021, 7:04:09 PM".to_string(),
            name: "B".to_string(),
        }),
        Some(Record {
            filename: "a.gpx".to_string(),
            date: "Dec 24, 2019, 9:30:00 AM".to_string(),
            name: "A".to_string(),
        }),
    ];
    let (export, _) = DataExport::new(&lines);
    let view = Viewport::from((0, 0), (0, 0), 10, 10, 10).unwrap();
    let mut heat = PixelHeatmap::from(view, false, false);
    let tracks = vec![
        Some(vec![Some(at(5, 5))]),
        Some(vec![Some(at(5, 5)), Some(at(5, 5)), Some(at(6, 6))]),
    ];
    let activities = export.parse(&tracks, &heat);
    assert_eq!(activities.len(), 2);
    assert_eq!(activities[0].name, "A");
    assert_eq!(activities[0].track_points, vec![at(5, 5), at(6, 6)]);
    assert_eq!(activities[1].name, "B");
    assert_eq!(activities[1].track_points, vec![at(5, 5)]);
    for activity in activities.iter() {
        let added = add_points(&mut heat, &activity.track_points);
        assert_eq!(added, activity.track_points.len());
    }
    assert_eq!(heat.count_at(&at(5, 5)), Some(2));
    assert_eq!(heat.count_at(&at(6, 6)), Some(1));
    assert_eq!(heat.max_value(), 2);
}
