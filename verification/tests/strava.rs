use derivers::activity::{ScreenActivity, Timestamp};
use derivers::heat::PixelHeatmap;
use derivers::slippy::{Coord, Viewport};
use derivers::strava::{
    insert_by_date, not_later, pad_activity_date, read_activity_date, DataExport, Record, Skipped,
};

fn at(x: u32, y: u32) -> Coord {
    Coord { x, y }
}

fn moment(secs: i64) -> Timestamp {
    Timestamp { secs, nanos: 0 }
}

fn line(filename: &str, date: &str, name: &str) -> Option<Record> {
    Some(Record { filename: filename.to_string(), date: date.to_string(), name: name.to_string() })
}

fn heatmap() -> PixelHeatmap {
    PixelHeatmap::from(Viewport::from((0, 0), (0, 0), 10, 10, 10).unwrap(), false, false)
}

#[test]
fn activity_dates_are_read() {
    assert_eq!(read_activity_date("Mar 5, 2021, 7:04:09 PM"), Some(moment(1614971049)));
    assert_eq!(read_activity_date("Dec 24, 2019, 9:30:00 AM"), Some(moment(1577179800)));
    assert_eq!(read_activity_date("Jul 14, 2020, 12:00:00 AM"), Some(moment(1594684800)));
}

#[test]
fn days_and_hours_of_one_digit_are_padded() {
    let padded = |text: &str| pad_activity_date(text).unwrap();
    assert_eq!(padded("Mar 5, 2021, 7:04:09 PM"), "Mar  5, 2021,  7:04:09 PM");
    assert_eq!(padded("Mar 15, 2021, 7:04:09 PM"), "Mar 15, 2021,  7:04:09 PM");
    assert_eq!(padded("Mar 5, 2021, 11:04:09 PM"), "Mar  5, 2021, 11:04:09 PM");
    assert_eq!(padded("Dec 24, 2019, 10:30:00 AM"), "Dec 24, 2019, 10:30:00 AM");
    assert_eq!(padded("yesterday"), "yesterday");
    assert_eq!(padded(""), "");
}

#[test]
fn other_texts_are_no_dates() {
    assert_eq!(read_activity_date(""), None);
    assert_eq!(read_activity_date("yesterday"), None);
    assert_eq!(read_activity_date("2021-03-05 19:04:09"), None);
    assert_eq!(read_activity_date("Mar 35, 2021, 7:04:09 PM"), None);
}

#[test]
fn lines_become_activities_or_are_counted() {
    let lines = vec![
        line("activities/1.gpx", "Mar 5, 2021, 7:04:09 PM", "Evening Run"),
        None,
        line("", "Mar 6, 2021, 7:04:09 PM", "Yoga"),
        line("activities/2.fit.gz", "someday", "Undated"),
        None,
        line("activities/3.fit", "Dec 24, 2019, 9:30:00 AM", "Christmas Ride"),
    ];
    let (export, skipped) = DataExport::new(&lines);
    assert_eq!(skipped, Skipped { no_files: 1, read_errors: 2, parse_errors: 1 });
    let list = export.activities();
    assert_eq!(list.len(), 3);
    assert_eq!(list[0].name(), "Evening Run");
    assert_eq!(list[0].date(), moment(1614971049));
    assert_eq!(list[0].path(), "activities/1.gpx");
    assert_eq!(list[1].name(), "Undated");
    assert_eq!(list[1].date(), moment(0));
    assert_eq!(list[1].path(), "activities/2.fit.gz");
    assert_eq!(list[2].name(), "Christmas Ride");
    assert_eq!(list[2].date(), moment(1577179800));
    assert_eq!(list[2].path(), "activities/3.fit");
}

#[test]
fn an_empty_list_gives_nothing() {
    let (export, skipped) = DataExport::new(&vec![]);
    assert!(export.activities().is_empty());
    assert_eq!(skipped, Skipped { no_files: 0, read_errors: 0, parse_errors: 0 });
    assert!(export.parse(&vec![], &heatmap()).is_empty());
}

#[test]
fn moments_are_ordered_by_seconds_then_nanoseconds() {
    let a = Timestamp { secs: 5, nanos: 10 };
    let b = Timestamp { secs: 5, nanos: 11 };
    let c = Timestamp { secs: 6, nanos: 0 };
    let d = Timestamp { secs: -1, nanos: 999 };
    assert!(not_later(&a, &a));
    assert!(not_later(&a, &b));
    assert!(!not_later(&b, &a));
    assert!(not_later(&b, &c));
    assert!(!not_later(&c, &b));
    assert!(not_later(&d, &a));
    assert!(!not_later(&a, &d));
}

fn named(name: &str, secs: i64) -> ScreenActivity {
    ScreenActivity { name: name.to_string(), date: moment(secs), track_points: vec![at(0, 0)] }
}

#[test]
fn insertion_keeps_the_order_of_dates_and_of_arrival() {
    let mut sorted: Vec<ScreenActivity> = Vec::new();
    for (name, secs) in [("c", 30), ("a", 10), ("b1", 20), ("d", 40), ("b2", 20), ("a0", 5)] {
        insert_by_date(&mut sorted, named(name, secs));
    }
    let names: Vec<&str> = sorted.iter().map(|a| a.name.as_str()).collect();
    assert_eq!(names, vec!["a0", "a", "b1", "b2", "c", "d"]);
}

#[test]
fn parse_projects_and_sorts_by_date() {
    let lines = vec![
        line("1.gpx", "Mar 5, 2021, 7:04:09 PM", "late"),
        line("2.gpx", "Dec 24, 2019, 9:30:00 AM", "early"),
        line("3.gpx", "Jul 14, 2020, 12:00:00 AM", "unreadable"),
        line("4.gpx", "Jul 14, 2020, 12:00:00 AM", "off screen"),
        line("5.gpx", "Jul 14, 2020, 12:00:00 AM", "middle"),
        line("6.gpx", "Jul 14, 2020, 12:00:00 AM", "no track handed over"),
    ];
    let (export, _) = DataExport::new(&lines);
    let tracks = vec![
        Some(vec![Some(at(1, 1)), Some(at(1, 1)), Some(at(2, 2))]),
        Some(vec![None, Some(at(3, 3))]),
        None,
        Some(vec![None, None]),
        Some(vec![Some(at(4, 4)), Some(at(5, 5)), Some(at(4, 4))]),
    ];
    let shown = export.parse(&tracks, &heatmap());
    assert_eq!(shown.len(), 3);
    assert_eq!(shown[0].name, "early");
    assert_eq!(shown[0].date, moment(1577179800));
    assert_eq!(shown[0].track_points, vec![at(3, 3)]);
    assert_eq!(shown[1].name, "middle");
    assert_eq!(shown[1].date, moment(1594684800));
    assert_eq!(shown[1].track_points, vec![at(4, 4), at(5, 5)]);
    assert_eq!(shown[2].name, "late");
    assert_eq!(shown[2].date, moment(1614971049));
    assert_eq!(shown[2].track_points, vec![at(1, 1), at(2, 2)]);
}
