use crate::heat::{
    lemma_one_visit_each, lemma_slot, lemma_slots_differ, screen_cell, Grid, Heatmap, Layout, Tally,
};
use crate::slippy::Coord;
use crate::text::{extension, extension_of, lemma_extension_is_suffix};
use std::collections::HashSet;
use std::fmt::Write;
use vstd::prelude::*;
use vstd::string::StrSliceExecFns;

verus! {

/// A moment: seconds since the start of 1970 in universal time, and the
/// nanoseconds into that second. Earlier moments order first.
#[derive(Clone, Copy, PartialEq, Eq, Structural, Debug)]
pub struct Timestamp {
    pub secs: i64,
    pub nanos: u32,
}

/// The moment `secs` seconds and `nanos` nanoseconds after the start of
/// 1970, written by `chrono` as `format` asks; `None` for a moment that the
/// calendar of `chrono` does not reach, and for a format that it cannot
/// write.
pub uninterp spec fn date_text(secs: i64, nanos: u32, format: Seq<char>) -> Option<Seq<char>>;

impl Timestamp {
    /// Whether the moment is no later than `other`.
    pub open spec fn le(self, other: Timestamp) -> bool {
        self.secs < other.secs || (self.secs == other.secs && self.nanos <= other.nanos)
    }

    /// Calls `chrono::DateTime::from_timestamp` and writes what
    /// `DateTime::format` gives for `format`. The contract claims that the
    /// text, or its absence, is what these two give for the moment and the
    /// format.
    #[verifier::external_body]
    pub(crate) fn format(&self, format: &str) -> (text: Option<String>)
        ensures
            text.is_some() == date_text(self.secs, self.nanos, format@).is_some(),
            text matches Some(t) ==> date_text(self.secs, self.nanos, format@) == Some(t@),
    {
        let mut text = String::new();
        match chrono::DateTime::from_timestamp(self.secs, self.nanos) {
            Some(date) => match write!(text, "{}", date.format(format)) {
                Ok(()) => Some(text),
                Err(_) => None,
            },
            None => None,
        }
    }
}

/// Why an activity is left out.
#[derive(Clone, Copy, PartialEq, Eq, Structural, Debug)]
pub enum ActivityError {
    /// None of the track's points is counted on the heatmap.
    NoVisibleTrackPoints,
    /// The file's name tells of no known track format.
    UnknownFileType,
}

impl ActivityError {
    /// What a reader is told of the error.
    pub open spec fn spec_message(self) -> Seq<char> {
        match self {
            ActivityError::NoVisibleTrackPoints => "No visible track points"@,
            ActivityError::UnknownFileType => "Unknown file type"@,
        }
    }

    /// What a reader is told of the error.
    pub fn message(&self) -> (text: String)
        ensures
            text@ == self.spec_message(),
    {
        match self {
            ActivityError::NoVisibleTrackPoints => "No visible track points".to_owned(),
            ActivityError::UnknownFileType => "Unknown file type".to_owned(),
        }
    }
}

/// The format of a track file.
#[derive(Clone, Copy, PartialEq, Eq, Structural, Debug)]
pub enum TrackFormat {
    Gpx,
    Fit,
}

/// How a track file is to be read.
#[derive(Clone, Copy, PartialEq, Eq, Structural, Debug)]
pub struct TrackFile {
    pub format: TrackFormat,
    /// Whether the file is compressed with gzip.
    pub gzip: bool,
}

/// How the file at `path` is to be read, by its name: a last extension `gz`
/// means gzip, and is set aside; the extension then decides, `gpx` or `fit`.
/// `None` for any other name.
pub open spec fn track_file(path: Seq<char>) -> Option<TrackFile> {
    let gzip = extension(path) == Some("gz"@);
    let inner = if gzip {
        path.take(path.len() - 3)
    } else {
        path
    };
    if extension(inner) == Some("gpx"@) {
        Some(TrackFile { format: TrackFormat::Gpx, gzip })
    } else if extension(inner) == Some("fit"@) {
        Some(TrackFile { format: TrackFormat::Fit, gzip })
    } else {
        None
    }
}

/// An activity as the export lists it: not read yet.
#[derive(Debug)]
pub struct RawActivity {
    name: String,
    date: Timestamp,
    path: String,
}

impl RawActivity {
    /// The name of the activity.
    pub closed spec fn spec_name(&self) -> Seq<char> {
        self.name@
    }

    /// The date of the activity.
    pub closed spec fn spec_date(&self) -> Timestamp {
        self.date
    }

    /// Where the track file lies.
    pub closed spec fn spec_path(&self) -> Seq<char> {
        self.path@
    }

    /// An activity of the given name and date whose track lies in the file
    /// at `path`.
    pub fn new(name: String, date: Timestamp, path: String) -> (raw: Self)
        ensures
            raw.spec_name() == name@,
            raw.spec_date() == date,
            raw.spec_path() == path@,
    {
        RawActivity { name, date, path }
    }

    /// The name of the activity.
    pub fn name(&self) -> (name: &String)
        ensures
            name@ == self.spec_name(),
    {
        &self.name
    }

    /// The date of the activity.
    pub fn date(&self) -> (date: Timestamp)
        ensures
            date == self.spec_date(),
    {
        self.date
    }

    /// Where the track file lies.
    pub fn path(&self) -> (path: &String)
        ensures
            path@ == self.spec_path(),
    {
        &self.path
    }

    /// The activity once its track is read: the track's points under the
    /// name and date of the list.
    pub fn parse(self, track_points: Vec<Option<Coord>>) -> (activity: Activity)
        ensures
            activity.spec_name() == self.spec_name(),
            activity.spec_date() == self.spec_date(),
            activity.spec_points() == track_points@,
    {
        Activity { name: self.name, date: self.date, track_points }
    }

    /// How the track file is to be read: see [`track_file`].
    pub fn file(&self) -> (file: Result<TrackFile, ActivityError>)
        ensures
            file matches Ok(f) ==> track_file(self.spec_path()) == Some(f),
            file matches Err(e) ==> track_file(self.spec_path()).is_none() && e
                == ActivityError::UnknownFileType,
    {
        let path = self.path.as_str();
        proof {
            reveal_strlit("gz");
            reveal_strlit("gpx");
            reveal_strlit("fit");
        }
        let gzip = match extension_of(path) {
            Some(ext) => ext == "gz".to_owned(),
            None => false,
        };
        let inner = if gzip {
            let n = path.unicode_len();
            proof {
                lemma_extension_is_suffix(path@);
            }
            path.substring_char(0, n - 3)
        } else {
            path
        };
        proof {
            if gzip {
                assert(inner@ =~= self.path@.take(self.path@.len() - 3));
            }
        }
        match extension_of(inner) {
            Some(ext) => {
                if ext == "gpx".to_owned() {
                    Ok(TrackFile { format: TrackFormat::Gpx, gzip })
                } else if ext == "fit".to_owned() {
                    Ok(TrackFile { format: TrackFormat::Fit, gzip })
                } else {
                    Err(ActivityError::UnknownFileType)
                }
            },
            None => Err(ActivityError::UnknownFileType),
        }
    }
}

/// One field of a record of a FIT file, as far as positions need it.
#[derive(Debug)]
pub struct FitField {
    pub name: String,
    pub units: String,
    /// The signed number of 32 bits that the field holds, if it holds one.
    pub value: Option<i32>,
}

/// The angle that a field holds: its number, if its unit is the semicircle.
pub open spec fn semicircles(field: FitField) -> Option<i32> {
    if field.units@ == "semicircles"@ {
        field.value
    } else {
        None
    }
}

/// Longitude and latitude that the fields of one record give, each as the
/// last field of its name has it: `position_long` and `position_lat`.
pub open spec fn record_angles(fields: Seq<FitField>) -> (Option<i32>, Option<i32>)
    decreases fields.len(),
{
    if fields.len() == 0 {
        (None, None)
    } else {
        let (lon, lat) = record_angles(fields.drop_last());
        if fields.last().name@ == "position_lat"@ {
            (lon, semicircles(fields.last()))
        } else if fields.last().name@ == "position_long"@ {
            (semicircles(fields.last()), lat)
        } else {
            (lon, lat)
        }
    }
}

/// The position that a record tells of: longitude and latitude in
/// semicircles, of which two to the power of 31 make a half turn. `None`
/// unless the record gives both.
pub fn record_position(fields: &Vec<FitField>) -> (position: Option<(i32, i32)>)
    ensures
        position == (match record_angles(fields@) {
            (Some(lon), Some(lat)) => Some((lon, lat)),
            _ => None,
        }),
{
    let position_lat = "position_lat".to_owned();
    let position_long = "position_long".to_owned();
    let unit = "semicircles".to_owned();
    let mut lat: Option<i32> = None;
    let mut lon: Option<i32> = None;
    let n = fields.len();
    let mut i: usize = 0;
    while i < n
        invariant
            i <= n,
            n == fields@.len(),
            position_lat@ == "position_lat"@,
            position_long@ == "position_long"@,
            unit@ == "semicircles"@,
            (lon, lat) == record_angles(fields@.take(i as int)),
        decreases n - i,
    {
        proof {
            assert(fields@.take(i + 1).drop_last() =~= fields@.take(i as int));
        }
        let field = &fields[i];
        let angle = if field.units == unit {
            field.value
        } else {
            None
        };
        if field.name == position_lat {
            lat = angle;
        } else if field.name == position_long {
            lon = angle;
        }
        i += 1;
    }
    proof {
        assert(fields@.take(n as int) =~= fields@);
    }
    match (lon, lat) {
        (Some(x), Some(y)) => Some((x, y)),
        _ => None,
    }
}

/// A track: its points in order, each as the cell that its coordinates fall
/// on, `None` for a point outside the viewport.
#[derive(Debug)]
pub struct Activity {
    name: String,
    date: Timestamp,
    track_points: Vec<Option<Coord>>,
}

/// A track as the heatmap counts it.
#[derive(Debug)]
pub struct ScreenActivity {
    pub name: String,
    pub date: Timestamp,
    pub track_points: Vec<Coord>,
}

/// What a [`ScreenActivity`] says: its name, its date and the cells that it
/// visits.
pub struct Track {
    pub name: Seq<char>,
    pub date: Timestamp,
    pub cells: Seq<Coord>,
}

impl View for ScreenActivity {
    type V = Track;

    open spec fn view(&self) -> Track {
        Track { name: self.name@, date: self.date, cells: self.track_points@ }
    }
}

/// The cells in which the points `raw` are counted, in their order; a point
/// that is turned away leaves no trace.
pub open spec fn visible(layout: Layout, raw: Seq<Option<Coord>>) -> Seq<Coord>
    decreases raw.len(),
{
    if raw.len() == 0 {
        Seq::empty()
    } else {
        let before = visible(layout, raw.drop_last());
        match screen_cell(layout, raw.last()) {
            Some(cell) => before.push(cell),
            None => before,
        }
    }
}

/// `cells` without repetitions: each cell where it first occurs.
pub open spec fn first_visits(cells: Seq<Coord>) -> Seq<Coord>
    decreases cells.len(),
{
    if cells.len() == 0 {
        Seq::empty()
    } else {
        let before = first_visits(cells.drop_last());
        if before.contains(cells.last()) {
            before
        } else {
            before.push(cells.last())
        }
    }
}

/// No cell occurs twice among the first visits, and they are the cells of
/// the track, no more and no fewer.
pub proof fn lemma_first_visits(cells: Seq<Coord>)
    ensures
        first_visits(cells).no_duplicates(),
        first_visits(cells).len() <= cells.len(),
        forall|c: Coord| first_visits(cells).contains(c) <==> cells.contains(c),
    decreases cells.len(),
{
    if cells.len() > 0 {
        let front = cells.drop_last();
        let last = cells.last();
        lemma_first_visits(front);
        let before = first_visits(front);
        assert forall|c: Coord| first_visits(cells).contains(c) <==> cells.contains(c) by {
            if cells.contains(c) {
                let i = choose|i: int| 0 <= i < cells.len() && cells[i] == c;
                if i < front.len() {
                    assert(front[i] == c);
                    assert(front.contains(c));
                    assert(before.contains(c));
                    let j = choose|j: int| 0 <= j < before.len() && before[j] == c;
                    assert(first_visits(cells)[j] == c);
                } else {
                    assert(c == last);
                    if !before.contains(last) {
                        assert(first_visits(cells)[before.len() as int] == last);
                    }
                }
            }
            if first_visits(cells).contains(c) {
                let j = choose|j: int| 0 <= j < first_visits(cells).len() && first_visits(cells)[j]
                    == c;
                if j < before.len() {
                    assert(before[j] == c);
                    assert(before.contains(c));
                    assert(front.contains(c));
                    let i = choose|i: int| 0 <= i < front.len() && front[i] == c;
                    assert(cells[i] == c);
                } else {
                    assert(cells[cells.len() - 1] == c);
                }
            }
        }
    }
}

/// However often a track visits a cell, the cell counts it once: adding the
/// first visits of a track raises the counter of each cell on the track by
/// one and leaves every other counter as it was.
pub proof fn lemma_track_counts_once(grid: Grid, tally: Tally, cells: Seq<Coord>)
    requires
        tally.counts.len() == grid.cells(),
        forall|k: int|
            0 <= k < cells.len() ==> grid.covers(#[trigger] cells[k]) && tally.counts[grid.slot(
                cells[k],
            )] < u32::MAX,
    ensures
        tally.can_add_all(grid.slots(first_visits(cells))),
        forall|c: Coord|
            grid.covers(c) ==> #[trigger] tally.add_all(grid.slots(first_visits(cells))).counts[grid.slot(
                c,
            )] == tally.counts[grid.slot(c)] + (if cells.contains(c) {
                1int
            } else {
                0int
            }),
{
    let visits = first_visits(cells);
    lemma_first_visits(cells);
    assert forall|k: int| 0 <= k < visits.len() implies grid.covers(#[trigger] visits[k])
        && tally.counts[grid.slot(visits[k])] < u32::MAX by {
        assert(visits.contains(visits[k]));
        assert(cells.contains(visits[k]));
        let j = choose|j: int| 0 <= j < cells.len() && cells[j] == visits[k];
        assert(grid.covers(cells[j]));
    }
    lemma_slots_differ(grid, visits);
    let slots = grid.slots(visits);
    assert forall|k: int| 0 <= k < slots.len() implies 0 <= #[trigger] slots[k]
        < tally.counts.len() && tally.counts[slots[k]] < u32::MAX by {
        assert(slots[k] == grid.slot(visits[k]));
    }
    lemma_one_visit_each(tally, slots);
    assert forall|c: Coord| grid.covers(c) implies #[trigger] tally.add_all(slots).counts[grid.slot(
        c,
    )] == tally.counts[grid.slot(c)] + (if cells.contains(c) {
        1int
    } else {
        0int
    }) by {
        lemma_slot(grid, c, c);
        if cells.contains(c) {
            assert(visits.contains(c));
            let k = choose|k: int| 0 <= k < visits.len() && visits[k] == c;
            assert(slots[k] == grid.slot(c));
            assert(slots.contains(grid.slot(c)));
        }
        if slots.contains(grid.slot(c)) {
            let k = choose|k: int| 0 <= k < slots.len() && slots[k] == grid.slot(c);
            lemma_slot(grid, visits[k], c);
            assert(visits[k] == c);
            assert(visits.contains(c));
            assert(cells.contains(c));
        }
    }
}

/// The number by which a cell is found again: its column in the upper half
/// and its row in the lower.
pub open spec fn cell_key(cell: Coord) -> u64 {
    (cell.x as u64 * 0x1_0000_0000 + cell.y as u64) as u64
}

impl Activity {
    /// The name of the activity.
    pub closed spec fn spec_name(&self) -> Seq<char> {
        self.name@
    }

    /// The date of the activity.
    pub closed spec fn spec_date(&self) -> Timestamp {
        self.date
    }

    /// The points of the track, in their order.
    pub closed spec fn spec_points(&self) -> Seq<Option<Coord>> {
        self.track_points@
    }

    /// An activity of the given name and date with the given track.
    pub fn new(name: String, date: Timestamp, track_points: Vec<Option<Coord>>) -> (activity: Self)
        ensures
            activity.spec_name() == name@,
            activity.spec_date() == date,
            activity.spec_points() == track_points@,
    {
        Activity { name, date, track_points }
    }

    /// Brings the track onto the heatmap: each point into the cell in which
    /// `heatmap` counts it, and each cell once only, where the track first
    /// enters it. A track of which nothing is left is an error.
    pub fn project_to_screen<H: Heatmap>(self, heatmap: &H) -> (projected: Result<
        ScreenActivity,
        ActivityError,
    >)
        requires
            heatmap.wf(),
        ensures
            projected.is_ok() <==> first_visits(visible(heatmap.layout(), self.spec_points())).len()
                > 0,
            projected matches Ok(screen) ==> screen@ == (Track {
                name: self.spec_name(),
                date: self.spec_date(),
                cells: first_visits(visible(heatmap.layout(), self.spec_points())),
            }),
            projected matches Err(e) ==> e == ActivityError::NoVisibleTrackPoints,
    {
        let track_points = visited_cells(&self.track_points, heatmap);
        if track_points.len() == 0 {
            Err(ActivityError::NoVisibleTrackPoints)
        } else {
            Ok(ScreenActivity { name: self.name, date: self.date, track_points })
        }
    }
}

/// The cells in which `heatmap` counts the points `raw`, each once, in the
/// order in which the track first enters them.
pub fn visited_cells<H: Heatmap>(raw: &Vec<Option<Coord>>, heatmap: &H) -> (cells: Vec<Coord>)
    requires
        heatmap.wf(),
    ensures
        cells@ == first_visits(visible(heatmap.layout(), raw@)),
{
    broadcast use vstd::std_specs::hash::group_hash_axioms;

    let ghost layout = heatmap.layout();
    let mut cells: Vec<Coord> = Vec::new();
    let mut seen: HashSet<u64> = HashSet::new();
    let n = raw.len();
    let mut i: usize = 0;
    while i < n
        invariant
            heatmap.wf(),
            layout == heatmap.layout(),
            n == raw@.len(),
            i <= n,
            cells@ == first_visits(visible(layout, raw@.take(i as int))),
            forall|c: Coord| cells@.contains(c) <==> seen@.contains(cell_key(c)),
        decreases n - i,
    {
        proof {
            assert(raw@.take(i + 1).drop_last() =~= raw@.take(i as int));
        }
        let ghost before = visible(layout, raw@.take(i as int));
        match heatmap.project_to_screen(&raw[i]) {
            Some(cell) => {
                proof {
                    assert(before.push(cell).drop_last() =~= before);
                }
                let key: u64 = cell.x as u64 * 0x1_0000_0000 + cell.y as u64;
                let ghost kept = cells@;
                if seen.insert(key) {
                    cells.push(cell);
                    proof {
                        assert forall|c: Coord| cells@.contains(c) <==> seen@.contains(
                            cell_key(c),
                        ) by {
                            if cells@.contains(c) {
                                let j = choose|j: int| 0 <= j < cells@.len() && cells@[j] == c;
                                if j < kept.len() {
                                    assert(kept[j] == c);
                                    assert(kept.contains(c));
                                }
                            }
                            if seen@.contains(cell_key(c)) {
                                if cell_key(c) == key {
                                    assert(c == cell);
                                    assert(cells@[kept.len() as int] == c);
                                } else {
                                    assert(kept.contains(c));
                                    let j = choose|j: int| 0 <= j < kept.len() && kept[j] == c;
                                    assert(cells@[j] == c);
                                }
                            }
                        }
                    }
                }
            },
            None => {},
        }
        i += 1;
    }
    proof {
        assert(raw@.take(n as int) =~= raw@);
    }
    cells
}

} // verus!
