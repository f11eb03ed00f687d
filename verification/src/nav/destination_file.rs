//! Destinations from the command line and from a file.
use crate::text;
use vstd::prelude::*;

verus! {

/// Where the destination file is.
pub const DEFAULT_DESTINATION_PATH: &'static str = "/data/local/tmp/aabox-nav-destination.json";

/// A destination as texts: its coordinates and its label.
#[derive(Debug)]
pub struct DestinationText {
    pub lat: String,
    pub lon: String,
    pub label: String,
}

/// What a destination says.
#[verifier::ext_equal]
pub struct Place {
    pub lat: Seq<char>,
    pub lon: Seq<char>,
    pub label: Seq<char>,
}

impl View for DestinationText {
    type V = Place;

    open spec fn view(&self) -> Place {
        Place { lat: self.lat@, lon: self.lon@, label: self.label@ }
    }
}

/// A destination has fewer than two parts.
#[derive(Debug, Clone, Copy, PartialEq, Eq, Structural)]
pub struct TooFewParts;

/// Where the first comma at or behind `i` stands, or the end.
pub open spec fn next_comma(s: Seq<char>, i: int) -> int
    decreases s.len() - i,
{
    if i >= s.len() || s[i] == ',' {
        i
    } else {
        next_comma(s, i + 1)
    }
}

/// A destination of the form `lat,lon` or `lat,lon,label`. Only the first two commas
/// count, and the space around each part does not.
pub open spec fn place_of(s: Seq<char>) -> Option<Place> {
    let a = next_comma(s, 0);
    if a >= s.len() {
        None
    } else {
        let b = next_comma(s, a + 1);
        Some(
            Place {
                lat: text::trimmed(s.subrange(0, a)),
                lon: text::trimmed(s.subrange(a + 1, b)),
                label: if b >= s.len() {
                    Seq::empty()
                } else {
                    text::trimmed(s.subrange(b + 1, s.len() as int))
                },
            },
        )
    }
}

fn find_comma(s: &Vec<char>, from: usize) -> (r: usize)
    requires
        from <= s@.len(),
    ensures
        r == next_comma(s@, from as int),
        from <= r <= s@.len(),
        r < s@.len() ==> s@[r as int] == ',',
{
    let mut i: usize = from;
    while i < s.len() && s[i] != ','
        invariant
            from <= i <= s@.len(),
            next_comma(s@, from as int) == next_comma(s@, i as int),
        decreases s@.len() - i,
    {
        i += 1;
    }
    i
}

fn part(s: &str, chars: &Vec<char>, from: usize, to: usize) -> (r: String)
    requires
        chars@ == s@,
        from <= to <= chars@.len(),
    ensures
        r@ == text::trimmed(s@.subrange(from as int, to as int)),
{
    let (a, b) = text::trim_range(chars, from, to);
    let found: &str = s.substring_char(a, b);
    assert(found@ =~= chars@.subrange(a as int, b as int));
    found.to_string()
}

/// Takes a destination of the command line apart.
pub fn parse_cli(s: &str) -> (r: Result<DestinationText, TooFewParts>)
    ensures
        match place_of(s@) {
            Some(place) => r matches Ok(d) && d@ == place,
            None => r == Err::<DestinationText, TooFewParts>(TooFewParts),
        },
{
    let chars: Vec<char> = text::chars_of(s);
    let n: usize = chars.len();
    let a: usize = find_comma(&chars, 0);
    if a >= n {
        return Err(TooFewParts);
    }
    let b: usize = find_comma(&chars, a + 1);
    let label: String = if b >= n {
        let none: String = String::new();
        assert(none@ =~= Seq::<char>::empty());
        none
    } else {
        part(s, &chars, b + 1, n)
    };
    Ok(DestinationText { lat: part(s, &chars, 0, a), lon: part(s, &chars, a + 1, b), label })
}

/// The label of a destination: its own, or its coordinates, given as texts.
pub fn label_or_coordinates(label: &str, lat: &str, lon: &str) -> (r: String)
    ensures
        r@ == if label@.len() == 0 {
            lat@ + ","@ + lon@
        } else {
            label@
        },
        label@.len() > 0 ==> r@ == label@,
{
    if label.unicode_len() > 0 {
        return label.to_string();
    }
    let mut out: String = lat.to_string();
    out.append(",");
    out.append(lon);
    out
}

/// When a file was changed: seconds and nanoseconds since the epoch.
#[derive(Debug, Clone, Copy, PartialEq, Eq, Structural)]
pub struct FileTime {
    pub seconds: i64,
    pub nanos: u32,
}

/// What is known of a file.
#[derive(Debug, Clone, Copy, PartialEq, Eq, Structural)]
pub enum FileState {
    /// There is none.
    Missing,
    /// It cannot be looked at.
    Unknown,
    /// It was changed then, if that is known.
    Changed(Option<FileTime>),
}

/// What was last seen of the file, and whether it is to be read, when it is now in
/// this state. It is read when it has changed since; a file that was missing counts
/// as changed.
pub open spec fn watched(last: Option<FileTime>, now: FileState) -> (Option<FileTime>, bool) {
    match now {
        FileState::Missing => (None, false),
        FileState::Unknown => (last, false),
        FileState::Changed(t) => (t, t != last),
    }
}

/// What was last seen of the file, and whether it is to be read.
pub fn watch_step(last: Option<FileTime>, now: FileState) -> (r: (Option<FileTime>, bool))
    ensures
        r == watched(last, now),
{
    match now {
        FileState::Missing => (None, false),
        FileState::Unknown => (last, false),
        FileState::Changed(t) => {
            let same: bool = match (t, last) {
                (Some(a), Some(b)) => a == b,
                (None, None) => true,
                _ => false,
            };
            (t, !same)
        },
    }
}

/// A file is read once for every change: not again while it stays as it is, and
/// again when it comes back after it was missing.
pub proof fn lemma_read_once(last: Option<FileTime>, t: FileTime)
    ensures
        !watched(watched(last, FileState::Changed(Some(t))).0, FileState::Changed(Some(t))).1,
        watched(watched(last, FileState::Missing).0, FileState::Changed(Some(t))).1,
{
}

proof fn lemma_next_comma(s: Seq<char>, i: int, at: int)
    requires
        0 <= i <= at <= s.len(),
        forall|j: int| i <= j < at ==> #[trigger] s[j] != ',',
        at < s.len() ==> s[at] == ',',
    ensures
        next_comma(s, i) == at,
    decreases at - i,
{
    if i < at {
        lemma_next_comma(s, i + 1, at);
    }
}

/// A destination is taken apart as it was put together: a latitude, a longitude and a
/// label, of which only the label may hold commas.
pub proof fn lemma_destination_parts(lat: Seq<char>, lon: Seq<char>, label: Seq<char>)
    requires
        forall|i: int| 0 <= i < lat.len() ==> #[trigger] lat[i] != ',',
        forall|i: int| 0 <= i < lon.len() ==> #[trigger] lon[i] != ',',
    ensures
        place_of(lat + seq![','] + lon + seq![','] + label) == Some(
            Place {
                lat: text::trimmed(lat),
                lon: text::trimmed(lon),
                label: text::trimmed(label),
            },
        ),
        place_of(lat + seq![','] + lon) == Some(
            Place { lat: text::trimmed(lat), lon: text::trimmed(lon), label: Seq::empty() },
        ),
        place_of(lat) is None,
{
    let full = lat + seq![','] + lon + seq![','] + label;
    let a = lat.len() as int;
    let b = a + 1 + lon.len();
    lemma_next_comma(full, 0, a);
    lemma_next_comma(full, a + 1, b);
    assert(full.subrange(0, a) =~= lat);
    assert(full.subrange(a + 1, b) =~= lon);
    assert(full.subrange(b + 1, full.len() as int) =~= label);
    let short = lat + seq![','] + lon;
    lemma_next_comma(short, 0, a);
    lemma_next_comma(short, a + 1, b);
    assert(short.subrange(0, a) =~= lat);
    assert(short.subrange(a + 1, b) =~= lon);
    lemma_next_comma(lat, 0, a);
}

/// The file is read exactly where it is there and was changed at another time than was
/// last seen; the time is remembered. A file that is missing is forgotten, and one that
/// cannot be looked at leaves what was seen as it is.
pub proof fn lemma_watched(last: Option<FileTime>, now: FileState)
    ensures
        watched(last, now).1 <==> (now matches FileState::Changed(t) && t != last),
        now is Missing ==> watched(last, now).0 is None,
        now is Unknown ==> watched(last, now).0 == last,
        now matches FileState::Changed(t) ==> watched(last, now).0 == t,
{
}

} // verus!
