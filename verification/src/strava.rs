use crate::activity::{
    first_visits, visible, visited_cells, RawActivity, ScreenActivity, Timestamp, Track,
};
use crate::heat::{Heatmap, Layout};
use crate::slippy::Coord;
use vstd::prelude::*;
use vstd::string::StrSliceExecFns;

verus! {

/// Finds a day of one digit: a space, a digit and a comma.
pub const DAY_PATTERN: &'static str = "( )(\\d,)";

/// Finds an hour of one digit: a comma, a space, a digit and a colon.
pub const HOUR_PATTERN: &'static str = "(, )(\\d:)";

/// Puts a space between the two groups of a match.
pub const PADDED: &'static str = "${1} ${2}";

/// The form of a padded activity date, such as `Mar  5, 2021,  7:04:09 PM`.
pub const DATE_FORMAT: &'static str = "%b %e, %Y, %l:%M:%S %p";

/// `text` with the first match of the regular expression `pattern` replaced
/// by `replacement`, in which `${1}` stands for the first group of the
/// match, as the crate `regex` does it; `None` where `pattern` is not a
/// regular expression.
pub uninterp spec fn regex_replace(pattern: Seq<char>, text: Seq<char>, replacement: Seq<char>)
    -> Option<Seq<char>>;

/// The moment that `text` names when read by `format` as the crate `chrono`
/// reads a date and time without a zone, taken as universal time; `None`
/// where `text` does not fit.
pub uninterp spec fn parsed_datetime(text: Seq<char>, format: Seq<char>) -> Option<Timestamp>;

/// Calls `regex::Regex::new` and `Regex::replace`. The contract claims that
/// the text handed back, or its absence, is what these two give.
#[verifier::external_body]
fn replace_first(pattern: &str, text: &str, replacement: &str) -> (replaced: Option<String>)
    ensures
        replaced.is_some() == regex_replace(pattern@, text@, replacement@).is_some(),
        replaced matches Some(t) ==> regex_replace(pattern@, text@, replacement@) == Some(t@),
{
    match regex::Regex::new(pattern) {
        Ok(re) => Some(re.replace(text, replacement).into_owned()),
        Err(_) => None,
    }
}

/// Calls `chrono::NaiveDateTime::parse_from_str` and reads the result as
/// universal time. The contract claims that the moment handed back, or its
/// absence, is what the call gives.
#[verifier::external_body]
fn parse_datetime(text: &str, format: &str) -> (moment: Option<Timestamp>)
    ensures
        moment == parsed_datetime(text@, format@),
{
    match chrono::NaiveDateTime::parse_from_str(text, format) {
        Ok(t) => Some(
            Timestamp { secs: t.and_utc().timestamp(), nanos: t.and_utc().timestamp_subsec_nanos() },
        ),
        Err(_) => None,
    }
}

/// The moment that the start of 1970 is.
pub open spec fn epoch() -> Timestamp {
    Timestamp { secs: 0, nanos: 0 }
}

/// An activity date with its day and its hour padded to two places, each
/// where it has one digit; `None` only where a pattern is no regular
/// expression.
pub open spec fn padded_date(text: Seq<char>) -> Option<Seq<char>> {
    match regex_replace(DAY_PATTERN@, text, PADDED@) {
        Some(day_padded) => regex_replace(HOUR_PATTERN@, day_padded, PADDED@),
        None => None,
    }
}

/// The moment that an activity date of the export names. Days and hours of
/// one digit are padded first, so that the date has the form
/// [`DATE_FORMAT`]. `None` for a text that is no such date.
pub open spec fn activity_date(text: Seq<char>) -> Option<Timestamp> {
    match padded_date(text) {
        Some(padded) => parsed_datetime(padded, DATE_FORMAT@),
        None => None,
    }
}

/// Pads an activity date of the export: see [`padded_date`].
pub fn pad_activity_date(text: &str) -> (padded: Option<String>)
    ensures
        padded.is_some() == padded_date(text@).is_some(),
        padded matches Some(p) ==> padded_date(text@) == Some(p@),
{
    match replace_first(DAY_PATTERN, text, PADDED) {
        Some(day_padded) => replace_first(HOUR_PATTERN, day_padded.as_str(), PADDED),
        None => None,
    }
}

/// Reads an activity date of the export: see [`activity_date`].
pub fn read_activity_date(text: &str) -> (moment: Option<Timestamp>)
    ensures
        moment == activity_date(text@),
{
    match pad_activity_date(text) {
        Some(padded) => parse_datetime(padded.as_str(), DATE_FORMAT),
        None => None,
    }
}

/// One line of the export's list of activities.
#[derive(Debug)]
pub struct Record {
    /// Where the track file lies, from the export's directory; empty for an
    /// activity without a file.
    pub filename: String,
    /// The activity date as the export writes it.
    pub date: String,
    /// The activity's name.
    pub name: String,
}

/// How many lines of the list gave no activity, or a doubtful one.
#[derive(Clone, Copy, PartialEq, Eq, Structural, Debug)]
pub struct Skipped {
    /// Activities without a file: left out.
    pub no_files: usize,
    /// Lines that could not be read: left out.
    pub read_errors: usize,
    /// Activities whose date could not be read: kept, dated to the start of
    /// 1970.
    pub parse_errors: usize,
}

/// Whether a line gives an activity: it was read and names a file.
pub open spec fn is_listed(line: Option<Record>) -> bool {
    line matches Some(record) && record.filename@.len() > 0
}

/// The activities that the lines give, in their order: name, date and file
/// of each. A date that cannot be read becomes the start of 1970.
pub open spec fn listed(lines: Seq<Option<Record>>) -> Seq<(Seq<char>, Timestamp, Seq<char>)>
    decreases lines.len(),
{
    if lines.len() == 0 {
        Seq::empty()
    } else {
        let before = listed(lines.drop_last());
        if is_listed(lines.last()) {
            let record = lines.last()->0;
            before.push(
                (
                    record.name@,
                    match activity_date(record.date@) {
                        Some(moment) => moment,
                        None => epoch(),
                    },
                    record.filename@,
                ),
            )
        } else {
            before
        }
    }
}

/// What was skipped among the lines: see [`Skipped`].
pub open spec fn skipped(lines: Seq<Option<Record>>) -> (int, int, int)
    decreases lines.len(),
{
    if lines.len() == 0 {
        (0, 0, 0)
    } else {
        let (no_files, read_errors, parse_errors) = skipped(lines.drop_last());
        match lines.last() {
            None => (no_files, read_errors + 1, parse_errors),
            Some(record) => if record.filename@.len() == 0 {
                (no_files + 1, read_errors, parse_errors)
            } else if activity_date(record.date@).is_none() {
                (no_files, read_errors, parse_errors + 1)
            } else {
                (no_files, read_errors, parse_errors)
            },
        }
    }
}

/// Whether the earlier of two moments comes first or both are the same.
pub fn not_later(a: &Timestamp, b: &Timestamp) -> (yes: bool)
    ensures
        yes == a.le(*b),
{
    a.secs < b.secs || (a.secs == b.secs && a.nanos <= b.nanos)
}

/// Where a track of date `date` goes into `sorted`: behind the last track
/// that is no later than it.
pub open spec fn place_for(sorted: Seq<Track>, date: Timestamp) -> int
    decreases sorted.len(),
{
    if sorted.len() == 0 {
        0
    } else if sorted.last().date.le(date) {
        sorted.len() as int
    } else {
        place_for(sorted.drop_last(), date)
    }
}

/// The tracks in the order of their dates, earliest first; tracks of one
/// date keep the order in which they came.
pub open spec fn chronological(tracks: Seq<Track>) -> Seq<Track>
    decreases tracks.len(),
{
    if tracks.len() == 0 {
        Seq::empty()
    } else {
        let before = chronological(tracks.drop_last());
        before.insert(place_for(before, tracks.last().date), tracks.last())
    }
}

/// Whether no track of `tracks` is dated before one that precedes it.
pub open spec fn in_order(tracks: Seq<Track>) -> bool {
    forall|i: int, j: int|
        0 <= i <= j < tracks.len() ==> (#[trigger] tracks[i]).date.le((#[trigger] tracks[j]).date)
}

/// The place for a date lies within the sequence; everything behind it is
/// later than the date, and in an ordered sequence nothing before it is.
pub proof fn lemma_place_for(sorted: Seq<Track>, date: Timestamp)
    ensures
        0 <= place_for(sorted, date) <= sorted.len(),
        forall|k: int|
            place_for(sorted, date) <= k < sorted.len() ==> !(#[trigger] sorted[k]).date.le(date),
        in_order(sorted) ==> forall|k: int|
            0 <= k < place_for(sorted, date) ==> (#[trigger] sorted[k]).date.le(date),
    decreases sorted.len(),
{
    if sorted.len() > 0 {
        if sorted.last().date.le(date) {
            if in_order(sorted) {
                assert forall|k: int| 0 <= k < sorted.len() implies (#[trigger] sorted[k]).date.le(
                    date,
                ) by {
                    assert(sorted[k].date.le(sorted[sorted.len() - 1].date));
                }
            }
        } else {
            let front = sorted.drop_last();
            lemma_place_for(front, date);
            assert forall|k: int| place_for(sorted, date) <= k < sorted.len() implies !(
            #[trigger] sorted[k]).date.le(date) by {
                if k < front.len() {
                    assert(front[k] == sorted[k]);
                }
            }
            if in_order(sorted) {
                assert forall|i: int, j: int| 0 <= i <= j < front.len() implies (
                #[trigger] front[i]).date.le((#[trigger] front[j]).date) by {
                    assert(sorted[i].date.le(sorted[j].date));
                }
                assert forall|k: int| 0 <= k < place_for(sorted, date) implies (
                #[trigger] sorted[k]).date.le(date) by {
                    assert(front[k] == sorted[k]);
                }
            }
        }
    }
}

/// Sorting by date gives the same tracks, each as often as before, and none
/// of them before an earlier one.
pub proof fn lemma_chronological(tracks: Seq<Track>)
    ensures
        in_order(chronological(tracks)),
        chronological(tracks).len() == tracks.len(),
        chronological(tracks).to_multiset() == tracks.to_multiset(),
    decreases tracks.len(),
{
    if tracks.len() == 0 {
        assert(tracks =~= Seq::empty());
    } else {
        let front = tracks.drop_last();
        let last = tracks.last();
        lemma_chronological(front);
        let before = chronological(front);
        let p = place_for(before, last.date);
        lemma_place_for(before, last.date);
        let after = before.insert(p, last);
        assert forall|i: int, j: int| 0 <= i <= j < after.len() implies (#[trigger] after[i]).date.le(
            (#[trigger] after[j]).date,
        ) by {
            if i < p && j < p {
                assert(before[i].date.le(before[j].date));
            } else if i < p && j == p {
                assert(before[i].date.le(last.date));
            } else if i < p && j > p {
                assert(before[i].date.le(before[j - 1].date));
            } else if i == p && j > p {
                assert(!before[j - 1].date.le(last.date));
            } else if i > p {
                assert(before[i - 1].date.le(before[j - 1].date));
            }
        }
        vstd::seq_lib::to_multiset_insert(before, p, last);
        assert(front.push(last) =~= tracks);
        vstd::seq_lib::to_multiset_build(front, last);
    }
}

/// What the activities say: see [`Track`].
pub open spec fn track_views(activities: Seq<ScreenActivity>) -> Seq<Track> {
    Seq::new(activities.len(), |i: int| activities[i]@)
}

/// Puts `activity` into `sorted` at its place by date.
pub fn insert_by_date(sorted: &mut Vec<ScreenActivity>, activity: ScreenActivity)
    ensures
        track_views(final(sorted)@) == track_views(old(sorted)@).insert(
            place_for(track_views(old(sorted)@), activity.date),
            activity@,
        ),
{
    let ghost views = track_views(sorted@);
    let mut p: usize = sorted.len();
    proof {
        assert(views.take(p as int) =~= views);
    }
    while p > 0 && !not_later(&sorted[p - 1].date, &activity.date)
        invariant
            p <= sorted@.len(),
            views == track_views(sorted@),
            place_for(views, activity.date) == place_for(views.take(p as int), activity.date),
        decreases p,
    {
        proof {
            assert(views.take(p as int).drop_last() =~= views.take(p - 1));
        }
        p -= 1;
    }
    proof {
        lemma_place_for(views.take(p as int), activity.date);
        if p > 0 {
            assert(views.take(p as int).last() == views[p - 1]);
        }
    }
    sorted.insert(p, activity);
    proof {
        assert(track_views(sorted@) =~= views.insert(p as int, activity@));
    }
}

/// The list of the activities of an export.
#[derive(Debug)]
pub struct DataExport {
    activities: Vec<RawActivity>,
}

/// Name, date and file of each activity.
pub open spec fn entries(activities: Seq<RawActivity>) -> Seq<(Seq<char>, Timestamp, Seq<char>)> {
    Seq::new(
        activities.len(),
        |i: int| (activities[i].spec_name(), activities[i].spec_date(), activities[i].spec_path()),
    )
}

/// The track that was read for the activity number `i`, if any.
pub open spec fn track_of(tracks: Seq<Option<Vec<Option<Coord>>>>, i: int) -> Option<
    Seq<Option<Coord>>,
> {
    if 0 <= i < tracks.len() {
        match tracks[i] {
            Some(points) => Some(points@),
            None => None,
        }
    } else {
        None
    }
}

/// The activities that can be shown, in the order of the list: those whose
/// track was read and has a point that `layout` counts. Each keeps its name
/// and date and has its track as the cells that it visits, each once.
pub open spec fn shown_activities(
    layout: Layout,
    activities: Seq<RawActivity>,
    tracks: Seq<Option<Vec<Option<Coord>>>>,
) -> Seq<Track>
    decreases activities.len(),
{
    if activities.len() == 0 {
        Seq::empty()
    } else {
        let before = shown_activities(layout, activities.drop_last(), tracks);
        match track_of(tracks, activities.len() - 1) {
            Some(points) => {
                let cells = first_visits(visible(layout, points));
                if cells.len() > 0 {
                    before.push(
                        Track {
                            name: activities.last().spec_name(),
                            date: activities.last().spec_date(),
                            cells,
                        },
                    )
                } else {
                    before
                }
            },
            None => before,
        }
    }
}

impl DataExport {
    /// The activities of the list.
    pub closed spec fn view(&self) -> Seq<RawActivity> {
        self.activities@
    }

    /// Takes the lines of an export's list: see [`listed`] for the
    /// activities that they give and [`skipped`] for the rest.
    pub fn new(lines: &Vec<Option<Record>>) -> (made: (DataExport, Skipped))
        ensures
            entries(made.0@) == listed(lines@),
            (made.1.no_files as int, made.1.read_errors as int, made.1.parse_errors as int)
                == skipped(lines@),
    {
        let mut activities: Vec<RawActivity> = Vec::new();
        let mut no_files: usize = 0;
        let mut read_errors: usize = 0;
        let mut parse_errors: usize = 0;
        let n = lines.len();
        let mut i: usize = 0;
        while i < n
            invariant
                i <= n,
                n == lines@.len(),
                entries(activities@) == listed(lines@.take(i as int)),
                (no_files as int, read_errors as int, parse_errors as int) == skipped(
                    lines@.take(i as int),
                ),
                no_files + read_errors + parse_errors <= i,
            decreases n - i,
        {
            proof {
                assert(lines@.take(i + 1).drop_last() =~= lines@.take(i as int));
            }
            let ghost before = entries(activities@);
            match &lines[i] {
                None => {
                    read_errors += 1;
                },
                Some(record) => {
                    if record.filename.as_str().unicode_len() == 0 {
                        no_files += 1;
                    } else {
                        let date = match read_activity_date(record.date.as_str()) {
                            Some(moment) => moment,
                            None => {
                                parse_errors += 1;
                                Timestamp { secs: 0, nanos: 0 }
                            },
                        };
                        let raw = RawActivity::new(
                            record.name.clone(),
                            date,
                            record.filename.clone(),
                        );
                        activities.push(raw);
                        proof {
                            assert(entries(activities@) =~= before.push(
                                (record.name@, date, record.filename@),
                            ));
                        }
                    }
                },
            }
            i += 1;
        }
        proof {
            assert(lines@.take(n as int) =~= lines@);
        }
        (DataExport { activities }, Skipped { no_files, read_errors, parse_errors })
    }

    /// The activities of the list, in its order.
    pub fn activities(&self) -> (list: &Vec<RawActivity>)
        ensures
            list@ == self@,
    {
        &self.activities
    }

    /// Brings the activities onto the heatmap `map` and into the order of
    /// their dates. `tracks` holds for each activity of the list, in its
    /// order, the points of its track as [`crate::activity::Activity`] holds
    /// them, or `None` where the track could not be read. See
    /// [`shown_activities`] and [`chronological`].
    pub fn parse<H: Heatmap>(self, tracks: &Vec<Option<Vec<Option<Coord>>>>, map: &H) -> (shown:
        Vec<ScreenActivity>)
        requires
            map.wf(),
        ensures
            track_views(shown@) == chronological(shown_activities(map.layout(), self@, tracks@)),
    {
        let ghost layout = map.layout();
        let ghost list = self.activities@;
        let mut shown: Vec<ScreenActivity> = Vec::new();
        let n = self.activities.len();
        let mut i: usize = 0;
        proof {
            assert(track_views(shown@) =~= Seq::empty());
        }
        while i < n
            invariant
                map.wf(),
                layout == map.layout(),
                list == self.activities@,
                n == list.len(),
                i <= n,
                track_views(shown@) == chronological(
                    shown_activities(layout, list.take(i as int), tracks@),
                ),
            decreases n - i,
        {
            proof {
                assert(list.take(i + 1).drop_last() =~= list.take(i as int));
            }
            let ghost before = shown_activities(layout, list.take(i as int), tracks@);
            if i < tracks.len() {
                match &tracks[i] {
                    Some(points) => {
                        let cells = visited_cells(points, map);
                        if cells.len() > 0 {
                            let raw = &self.activities[i];
                            let activity = ScreenActivity {
                                name: raw.name().clone(),
                                date: raw.date(),
                                track_points: cells,
                            };
                            proof {
                                assert(before.push(activity@).drop_last() =~= before);
                            }
                            insert_by_date(&mut shown, activity);
                        }
                    },
                    None => {},
                }
            }
            i += 1;
        }
        proof {
            assert(list.take(n as int) =~= list);
        }
        shown
    }
}

} // verus!
