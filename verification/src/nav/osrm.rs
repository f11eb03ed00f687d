//! Directions along a route of an OSRM server.
//!
//! A route is a list of steps, the first of which is the departure and the last the
//! arrival. The driver is told of the step that comes next; within reach of it the
//! one after it comes next. Off the route a new route is asked for. Distances are
//! measured outside: here they come as answers to questions ([`Asked`]).
use crate::channels::nav::{Instruction, NavInstruction};
use crate::octets;
use crate::text;
use vstd::prelude::*;

verus! {

/// The server that is asked where none is named.
pub const DEFAULT_OSRM_BASE_URL: &'static str = "https://router.project-osrm.org";

/// The icon for a manoeuvre: 1 straight on, 2 slight left, 3 left, 4 sharp left,
/// 5 U-turn, 6 sharp right, 7 right, 8 slight right, 9 arrival.
pub open spec fn turn_of(kind: Seq<char>, modifier: Option<Seq<char>>) -> u32 {
    if kind == "depart"@ || kind == "continue"@ || kind == "new name"@ {
        1
    } else if kind == "arrive"@ {
        9
    } else if kind == "rotary"@ || kind == "roundabout"@ {
        3
    } else {
        match modifier {
            None => 1,
            Some(m) => if m == "uturn"@ {
                5
            } else if m == "sharp left"@ {
                4
            } else if m == "left"@ {
                3
            } else if m == "slight left"@ {
                2
            } else if m == "slight right"@ {
                8
            } else if m == "right"@ {
                7
            } else if m == "sharp right"@ {
                6
            } else {
                1
            },
        }
    }
}

/// What a text says, if there is one.
pub open spec fn text_in(s: Option<&str>) -> Option<Seq<char>> {
    match s {
        Some(t) => Some(t@),
        None => None,
    }
}

fn is_text(s: &str, t: &str) -> (r: bool)
    ensures
        r == (s@ == t@),
{
    octets::same_text(s, t)
}

/// The icon for a manoeuvre.
pub fn maneuver_to_turn_id(maneuver_type: &str, modifier: Option<&str>) -> (r: u32)
    ensures
        r == turn_of(maneuver_type@, text_in(modifier)),
{
    if is_text(maneuver_type, "depart") || is_text(maneuver_type, "continue") || is_text(
        maneuver_type,
        "new name",
    ) {
        return 1;
    }
    if is_text(maneuver_type, "arrive") {
        return 9;
    }
    if is_text(maneuver_type, "rotary") || is_text(maneuver_type, "roundabout") {
        return 3;
    }
    match modifier {
        None => 1,
        Some(m) => {
            if is_text(m, "uturn") {
                5
            } else if is_text(m, "sharp left") {
                4
            } else if is_text(m, "left") {
                3
            } else if is_text(m, "slight left") {
                2
            } else if is_text(m, "slight right") {
                8
            } else if is_text(m, "right") {
                7
            } else if is_text(m, "sharp right") {
                6
            } else {
                1
            }
        },
    }
}

/// The words for a manoeuvre.
pub open spec fn verb_of(kind: Seq<char>, modifier: Option<Seq<char>>) -> Seq<char> {
    if kind == "depart"@ {
        "Head"@
    } else if kind == "arrive"@ {
        "You have arrived"@
    } else if kind == "continue"@ || kind == "new name"@ {
        "Continue"@
    } else if kind == "fork"@ {
        if modifier == Some("left"@) || modifier == Some("slight left"@) {
            "Keep left"@
        } else {
            "Keep right"@
        }
    } else if kind == "roundabout"@ || kind == "rotary"@ {
        "Take the roundabout"@
    } else if kind == "merge"@ {
        "Merge"@
    } else if kind == "on ramp"@ {
        "Take the on-ramp"@
    } else if kind == "off ramp"@ {
        "Take the exit"@
    } else {
        match modifier {
            None => "Continue"@,
            Some(m) => if m == "uturn"@ {
                "Make a U-turn"@
            } else if m == "sharp left"@ {
                "Turn sharp left"@
            } else if m == "left"@ {
                "Turn left"@
            } else if m == "slight left"@ {
                "Bear left"@
            } else if m == "slight right"@ {
                "Bear right"@
            } else if m == "right"@ {
                "Turn right"@
            } else if m == "sharp right"@ {
                "Turn sharp right"@
            } else if m == "straight"@ {
                "Continue"@
            } else {
                "Turn ("@ + m + ")"@
            },
        }
    }
}

fn modifier_verb(modifier: Option<&str>) -> (r: String)
    ensures
        r@ == match text_in(modifier) {
            None => "Continue"@,
            Some(m) => if m == "uturn"@ {
                "Make a U-turn"@
            } else if m == "sharp left"@ {
                "Turn sharp left"@
            } else if m == "left"@ {
                "Turn left"@
            } else if m == "slight left"@ {
                "Bear left"@
            } else if m == "slight right"@ {
                "Bear right"@
            } else if m == "right"@ {
                "Turn right"@
            } else if m == "sharp right"@ {
                "Turn sharp right"@
            } else if m == "straight"@ {
                "Continue"@
            } else {
                "Turn ("@ + m + ")"@
            },
        },
{
    match modifier {
        None => "Continue".to_string(),
        Some(m) => {
            if is_text(m, "uturn") {
                "Make a U-turn".to_string()
            } else if is_text(m, "sharp left") {
                "Turn sharp left".to_string()
            } else if is_text(m, "left") {
                "Turn left".to_string()
            } else if is_text(m, "slight left") {
                "Bear left".to_string()
            } else if is_text(m, "slight right") {
                "Bear right".to_string()
            } else if is_text(m, "right") {
                "Turn right".to_string()
            } else if is_text(m, "sharp right") {
                "Turn sharp right".to_string()
            } else if is_text(m, "straight") {
                "Continue".to_string()
            } else {
                let mut verb: String = "Turn (".to_string();
                verb.append(m);
                verb.append(")");
                verb
            }
        },
    }
}

/// The words for a manoeuvre.
pub fn maneuver_to_verb(maneuver_type: &str, modifier: Option<&str>) -> (r: String)
    ensures
        r@ == verb_of(maneuver_type@, text_in(modifier)),
{
    if is_text(maneuver_type, "depart") {
        "Head".to_string()
    } else if is_text(maneuver_type, "arrive") {
        "You have arrived".to_string()
    } else if is_text(maneuver_type, "continue") || is_text(maneuver_type, "new name") {
        "Continue".to_string()
    } else if is_text(maneuver_type, "fork") {
        let left: bool = match modifier {
            Some(m) => is_text(m, "left") || is_text(m, "slight left"),
            None => false,
        };
        if left {
            "Keep left".to_string()
        } else {
            "Keep right".to_string()
        }
    } else if is_text(maneuver_type, "roundabout") || is_text(maneuver_type, "rotary") {
        "Take the roundabout".to_string()
    } else if is_text(maneuver_type, "merge") {
        "Merge".to_string()
    } else if is_text(maneuver_type, "on ramp") {
        "Take the on-ramp".to_string()
    } else if is_text(maneuver_type, "off ramp") {
        "Take the exit".to_string()
    } else {
        modifier_verb(modifier)
    }
}

/// `s` without the slashes at its end.
pub open spec fn without_slashes(s: Seq<char>) -> Seq<char>
    decreases s.len(),
{
    if s.len() > 0 && s.last() == '/' {
        without_slashes(s.drop_last())
    } else {
        s
    }
}

/// The address of a route. Coordinates are given as texts; a longitude comes before
/// its latitude.
pub open spec fn url_of(
    base: Seq<char>,
    start_lon: Seq<char>,
    start_lat: Seq<char>,
    end_lon: Seq<char>,
    end_lat: Seq<char>,
) -> Seq<char> {
    without_slashes(base) + "/route/v1/driving/"@ + start_lon + ","@ + start_lat + ";"@ + end_lon
        + ","@ + end_lat + "?steps=true&geometries=geojson&overview=full"@
}

fn trim_slashes(base: &str) -> (r: String)
    ensures
        r@ == without_slashes(base@),
{
    let chars: Vec<char> = text::chars_of(base);
    let mut n: usize = chars.len();
    assert(chars@.take(n as int) =~= base@);
    while n > 0 && chars[n - 1] == '/'
        invariant
            n <= chars@.len(),
            chars@ == base@,
            without_slashes(base@) == without_slashes(chars@.take(n as int)),
        decreases n,
    {
        assert(chars@.take(n as int).drop_last() =~= chars@.take(n - 1));
        n -= 1;
    }
    let out: &str = base.substring_char(0, n);
    assert(out@ =~= chars@.take(n as int));
    out.to_string()
}

/// The address of a route.
pub fn route_url(
    base: &str,
    start_lon: &str,
    start_lat: &str,
    end_lon: &str,
    end_lat: &str,
) -> (r: String)
    ensures
        r@ == url_of(base@, start_lon@, start_lat@, end_lon@, end_lat@),
{
    let mut url: String = trim_slashes(base);
    url.append("/route/v1/driving/");
    url.append(start_lon);
    url.append(",");
    url.append(start_lat);
    url.append(";");
    url.append(end_lon);
    url.append(",");
    url.append(end_lat);
    url.append("?steps=true&geometries=geojson&overview=full");
    url
}

/// Why an answer of the server holds no route.
#[derive(Debug, Clone, Copy, PartialEq, Eq, Structural)]
pub enum RouteError {
    /// The server says that there is none.
    Refused,
    /// The server says that there is one, and gives none.
    Missing,
}

/// Whether an answer holds a route: its code is "Ok", and there is one. The first
/// counts.
pub fn check_answer(code: &str, routes: usize) -> (r: Result<(), RouteError>)
    ensures
        r == if code@ != "Ok"@ {
            Err::<(), RouteError>(RouteError::Refused)
        } else if routes == 0 {
            Err(RouteError::Missing)
        } else {
            Ok(())
        },
        r is Ok <==> code@ == "Ok"@ && routes > 0,
        r == Err::<(), RouteError>(RouteError::Missing) <==> code@ == "Ok"@ && routes == 0,
{
    if !is_text(code, "Ok") {
        Err(RouteError::Refused)
    } else if routes == 0 {
        Err(RouteError::Missing)
    } else {
        Ok(())
    }
}

/// A step of a route: where it leads is kept outside, under the step's place in the
/// route.
#[derive(Debug)]
pub struct RouteStep {
    /// The road, or nothing.
    pub name: String,
    pub turn_id: u32,
    /// The words for the manoeuvre.
    pub verb: String,
}

/// What a step says.
#[verifier::ext_equal]
pub struct Leg {
    pub name: Seq<char>,
    pub turn_id: u32,
    pub verb: Seq<char>,
}

impl View for RouteStep {
    type V = Leg;

    open spec fn view(&self) -> Leg {
        Leg { name: self.name@, turn_id: self.turn_id, verb: self.verb@ }
    }
}

/// The step for a manoeuvre.
pub open spec fn leg_of(kind: Seq<char>, modifier: Option<Seq<char>>, name: Seq<char>) -> Leg {
    Leg { name, turn_id: turn_of(kind, modifier), verb: verb_of(kind, modifier) }
}

impl RouteStep {
    /// The step for a manoeuvre onto a road.
    pub fn of_maneuver(maneuver_type: &str, modifier: Option<&str>, name: &str) -> (r: Self)
        ensures
            r@ == leg_of(maneuver_type@, text_in(modifier), name@),
    {
        RouteStep {
            name: name.to_string(),
            turn_id: maneuver_to_turn_id(maneuver_type, modifier),
            verb: maneuver_to_verb(maneuver_type, modifier),
        }
    }
}

/// A route.
#[derive(Debug)]
pub struct Route {
    pub steps: Vec<RouteStep>,
}

/// What the steps of a route say.
pub open spec fn legs(steps: Seq<RouteStep>) -> Seq<Leg> {
    Seq::new(steps.len(), |i: int| steps[i]@)
}

/// Which distance an instruction shows.
#[derive(Debug, Clone, Copy, PartialEq, Eq, Structural)]
pub enum Asked {
    /// From the last position to where this step leads.
    ToStep(usize),
    /// The length of this step.
    OfStep(usize),
    /// None: it is zero.
    Zero,
}

/// What a request for a route is for.
#[derive(Debug, Clone, Copy, PartialEq, Eq, Structural)]
pub enum Purpose {
    /// There is none yet.
    First,
    /// The driver has left the one there is; whether a step of it was reached just now.
    Again { reached: bool },
}

/// What follows a new destination or position.
#[derive(Debug, Clone, Copy, PartialEq, Eq, Structural)]
pub enum NavStep {
    /// Nothing.
    Idle,
    /// Ask the server for a route from the last position to the destination.
    Fetch(Purpose),
    /// Measure the distance, and send the instruction.
    Show,
    /// Measure the distance, and keep the instruction: nothing is sent.
    Refresh,
    /// Report that there is no route.
    Fail,
}

/// Finds the way along a route.
#[derive(Debug)]
pub struct OsrmNavSource {
    /// Whether there is a destination.
    pub destination: bool,
    /// Whether there is a position.
    pub fix: bool,
    pub route: Option<Route>,
    /// Which step comes next.
    pub next_idx: usize,
    /// What is shown.
    pub current: Option<NavInstruction>,
}

/// The state of a source.
#[verifier::ext_equal]
pub struct Way {
    pub destination: bool,
    pub fix: bool,
    pub route: Option<Seq<Leg>>,
    pub next_idx: usize,
    pub current: Option<Instruction>,
}

impl View for OsrmNavSource {
    type V = Way;

    open spec fn view(&self) -> Way {
        Way {
            destination: self.destination,
            fix: self.fix,
            route: match self.route {
                Some(r) => Some(legs(r.steps@)),
                None => None,
            },
            next_idx: self.next_idx,
            current: match self.current {
                Some(i) => Some(i@),
                None => None,
            },
        }
    }
}

/// The step that comes next on a new route: the first turn, where there is one.
pub open spec fn first_turn(len: nat) -> usize {
    if len >= 2 {
        1
    } else {
        0
    }
}

/// The state with a new route.
pub open spec fn with_route(w: Way, route: Seq<Leg>) -> Way {
    Way { route: Some(route), next_idx: first_turn(route.len()), ..w }
}

/// The step whose instruction is shown, and the distance that it shows.
pub open spec fn shown_step(w: Way) -> Option<(int, Asked)> {
    match w.route {
        None => None,
        Some(r) => if r.len() == 0 {
            None
        } else {
            let idx: int = if w.next_idx < r.len() {
                w.next_idx as int
            } else {
                r.len() - 1
            };
            Some(
                (
                    idx,
                    if w.fix {
                        Asked::ToStep(idx as usize)
                    } else if idx > 0 {
                        Asked::OfStep((idx - 1) as usize)
                    } else if r.len() > 1 {
                        Asked::OfStep(1)
                    } else {
                        Asked::Zero
                    },
                ),
            )
        },
    }
}

/// A whole number in decimal.
pub open spec fn signed_decimal(n: int) -> Seq<char> {
    if n < 0 {
        "-"@ + text::decimal((-n) as nat)
    } else {
        text::decimal(n as nat)
    }
}

/// The instruction for a step at a distance in whole metres.
pub open spec fn instruction_for(step: Leg, metres: i64) -> Instruction {
    Instruction {
        status_text: step.verb + " in "@ + signed_decimal(metres as int) + " m"@ + (
        if step.name.len() == 0 {
            ""@
        } else {
            " onto "@ + step.name
        }),
        turn_id: step.turn_id,
        distance_m: if metres < 0 {
            0
        } else if metres > u32::MAX {
            u32::MAX
        } else {
            metres as u32
        },
    }
}

/// The state when the distance is measured.
pub open spec fn rebuilt(w: Way, metres: i64) -> Way {
    Way {
        current: match shown_step(w) {
            None => None,
            Some((idx, _)) => Some(instruction_for(w.route->Some_0[idx], metres)),
        },
        ..w
    }
}

/// The state with a new destination, and what follows.
pub open spec fn redirected(w: Way) -> (Way, NavStep) {
    (
        Way { destination: true, fix: w.fix, route: None, next_idx: 0, current: None },
        if w.fix {
            NavStep::Fetch(Purpose::First)
        } else {
            NavStep::Idle
        },
    )
}

/// The state with a new position, and what follows. `near` says whether the position
/// is within reach of the step that comes next, and `off_route` whether it is far
/// from all steps. Where the step stays the same, nothing is sent.
pub open spec fn moved(w: Way, near: bool, off_route: bool) -> (Way, NavStep) {
    let v = Way { fix: true, ..w };
    if !w.destination {
        (v, NavStep::Idle)
    } else {
        match w.route {
            None => (v, NavStep::Fetch(Purpose::First)),
            Some(r) => {
                let reached = near && w.next_idx + 1 < r.len();
                (
                    if reached {
                        Way { next_idx: (w.next_idx + 1) as usize, ..v }
                    } else {
                        v
                    },
                    if off_route && r.len() > 0 {
                        NavStep::Fetch(Purpose::Again { reached })
                    } else if reached {
                        NavStep::Show
                    } else {
                        NavStep::Refresh
                    },
                )
            },
        }
    }
}

fn to_signed_decimal(n: i64) -> (r: String)
    ensures
        r@ == signed_decimal(n as int),
{
    if n >= 0 {
        text::to_decimal(n as u64)
    } else {
        let mut out: String = "-".to_string();
        let size: u64 = if n == i64::MIN {
            0x8000_0000_0000_0000
        } else {
            (-n) as u64
        };
        out.append(text::to_decimal(size).as_str());
        out
    }
}

fn instruct(step: &RouteStep, metres: i64) -> (r: NavInstruction)
    ensures
        r@ == instruction_for(step@, metres),
{
    let mut status_text: String = step.verb.as_str().to_string();
    status_text.append(" in ");
    status_text.append(to_signed_decimal(metres).as_str());
    status_text.append(" m");
    let name: &str = step.name.as_str();
    let ghost before = status_text@;
    if name.unicode_len() > 0 {
        status_text.append(" onto ");
        status_text.append(name);
        assert(status_text@ =~= before + (" onto "@ + step.name@));
    } else {
        proof {
            reveal_strlit("");
        }
        assert(before + ""@ =~= before);
    }
    let distance_m: u32 = if metres < 0 {
        0
    } else if metres > u32::MAX as i64 {
        u32::MAX
    } else {
        metres as u32
    };
    NavInstruction { status_text, turn_id: step.turn_id, distance_m }
}

impl OsrmNavSource {
    /// A source without a destination.
    pub fn new() -> (r: Self)
        ensures
            r@ == (Way { destination: false, fix: false, route: None, next_idx: 0, current: None }),
    {
        OsrmNavSource { destination: false, fix: false, route: None, next_idx: 0, current: None }
    }

    /// Takes a new destination. A route to it is asked for as soon as there is a
    /// position.
    pub fn set_destination(&mut self) -> (r: NavStep)
        ensures
            (final(self)@, r) == redirected(old(self)@),
    {
        self.destination = true;
        self.route = None;
        self.next_idx = 0;
        self.current = None;
        if self.fix {
            NavStep::Fetch(Purpose::First)
        } else {
            NavStep::Idle
        }
    }

    /// Takes a new position.
    pub fn update_position(&mut self, near: bool, off_route: bool) -> (r: NavStep)
        ensures
            (final(self)@, r) == moved(old(self)@, near, off_route),
    {
        self.fix = true;
        if !self.destination {
            return NavStep::Idle;
        }
        let len: usize = match &self.route {
            None => {
                return NavStep::Fetch(Purpose::First);
            },
            Some(r) => r.steps.len(),
        };
        let reached: bool = near && self.next_idx < len && len - self.next_idx > 1;
        if reached {
            self.next_idx = self.next_idx + 1;
        }
        if off_route && len > 0 {
            NavStep::Fetch(Purpose::Again { reached })
        } else if reached {
            NavStep::Show
        } else {
            NavStep::Refresh
        }
    }

    /// Takes the route that was asked for.
    pub fn route_found(&mut self, route: Route) -> (r: NavStep)
        ensures
            final(self)@ == with_route(old(self)@, legs(route.steps@)),
            r == NavStep::Show,
    {
        self.next_idx = if route.steps.len() >= 2 {
            1
        } else {
            0
        };
        self.route = Some(route);
        NavStep::Show
    }

    /// Takes the news that no route was found. Where there is one already, it stays, and
    /// nothing is sent but a step that was reached.
    pub fn route_failed(&self, purpose: Purpose) -> (r: NavStep)
        ensures
            r == match purpose {
                Purpose::First => NavStep::Fail,
                Purpose::Again { reached: true } => NavStep::Show,
                Purpose::Again { reached: false } => NavStep::Refresh,
            },
            r is Fail <==> purpose is First,
            r is Show <==> purpose == (Purpose::Again { reached: true }),
    {
        match purpose {
            Purpose::First => NavStep::Fail,
            Purpose::Again { reached } => {
                if reached {
                    NavStep::Show
                } else {
                    NavStep::Refresh
                }
            },
        }
    }

    /// Which distance is to be measured.
    pub fn asked(&self) -> (r: Option<Asked>)
        ensures
            r == match shown_step(self@) {
                Some((_, asked)) => Some(asked),
                None => None,
            },
    {
        match &self.route {
            None => None,
            Some(route) => {
                let n: usize = route.steps.len();
                if n == 0 {
                    return None;
                }
                let idx: usize = if self.next_idx < n {
                    self.next_idx
                } else {
                    n - 1
                };
                if self.fix {
                    Some(Asked::ToStep(idx))
                } else if idx > 0 {
                    Some(Asked::OfStep(idx - 1))
                } else if n > 1 {
                    Some(Asked::OfStep(1))
                } else {
                    Some(Asked::Zero)
                }
            },
        }
    }

    /// Shows the instruction for the step that comes next, at this distance.
    pub fn rebuild_current(&mut self, metres: i64)
        ensures
            final(self)@ == rebuilt(old(self)@, metres),
    {
        let made: Option<NavInstruction> = match &self.route {
            None => None,
            Some(route) => {
                let n: usize = route.steps.len();
                if n == 0 {
                    None
                } else {
                    let idx: usize = if self.next_idx < n {
                        self.next_idx
                    } else {
                        n - 1
                    };
                    Some(instruct(&route.steps[idx], metres))
                }
            },
        };
        self.current = made;
    }

    /// What is shown.
    pub fn current_instruction(&self) -> (r: Option<NavInstruction>)
        ensures
            match (r, self@.current) {
                (Some(i), Some(shown)) => i@ == shown,
                (None, None) => true,
                _ => false,
            },
    {
        match &self.current {
            Some(i) => Some(i.clone()),
            None => None,
        }
    }
}

/// Whether the step that comes next is one of the route.
pub open spec fn on_course(w: Way) -> bool {
    w.route matches Some(r) ==> w.next_idx < r.len() || (r.len() == 0 && w.next_idx == 0)
}

/// The step that comes next is always one of the route; a position moves on by one
/// step at most, and never past the arrival. A position on the same step sends nothing.
pub proof fn lemma_stays_on_course(
    w: Way,
    near: bool,
    off_route: bool,
    route: Seq<Leg>,
    metres: i64,
)
    requires
        on_course(w),
        w.route matches Some(r) ==> r.len() <= usize::MAX,
    ensures
        on_course(redirected(w).0),
        on_course(moved(w, near, off_route).0),
        on_course(with_route(w, route)),
        on_course(rebuilt(w, metres)),
        w.next_idx <= moved(w, near, off_route).0.next_idx <= w.next_idx + 1,
        !near ==> moved(w, near, off_route).0.next_idx == w.next_idx,
        moved(w, near, off_route).1 is Show ==> moved(w, near, off_route).0.next_idx == w.next_idx
            + 1,
{
}

/// On a route with a turn, the first instruction is the first turn, not the
/// departure.
pub proof fn lemma_first_turn_is_shown(w: Way, route: Seq<Leg>, metres: i64)
    requires
        route.len() >= 2,
    ensures
        rebuilt(with_route(w, route), metres).current == Some(instruction_for(route[1], metres)),
{
}

// ---- What the driver is told ------------------------------------------------

/// Whether `part` stands somewhere in `words`.
pub open spec fn says(words: Seq<char>, part: Seq<char>) -> bool {
    exists|i: int|
        0 <= i && i + part.len() <= words.len() && #[trigger] words.subrange(i, i + part.len())
            == part
}

/// Whether a manoeuvre is a turn like any other: what is said of it rests on its
/// modifier alone.
pub open spec fn plain(kind: Seq<char>) -> bool {
    &&& kind != "depart"@
    &&& kind != "arrive"@
    &&& kind != "continue"@
    &&& kind != "new name"@
    &&& kind != "fork"@
    &&& kind != "roundabout"@
    &&& kind != "rotary"@
    &&& kind != "merge"@
    &&& kind != "on ramp"@
    &&& kind != "off ramp"@
}

proof fn lemma_modifiers_differ()
    ensures
        "uturn"@ != "sharp left"@,
        "uturn"@ != "left"@,
        "uturn"@ != "slight left"@,
        "uturn"@ != "slight right"@,
        "uturn"@ != "right"@,
        "uturn"@ != "sharp right"@,
        "uturn"@ != "straight"@,
        "sharp left"@ != "left"@,
        "sharp left"@ != "slight left"@,
        "sharp left"@ != "slight right"@,
        "sharp left"@ != "right"@,
        "sharp left"@ != "sharp right"@,
        "sharp left"@ != "straight"@,
        "left"@ != "slight left"@,
        "left"@ != "slight right"@,
        "left"@ != "right"@,
        "left"@ != "sharp right"@,
        "left"@ != "straight"@,
        "slight left"@ != "slight right"@,
        "slight left"@ != "right"@,
        "slight left"@ != "sharp right"@,
        "slight left"@ != "straight"@,
        "slight right"@ != "right"@,
        "slight right"@ != "sharp right"@,
        "slight right"@ != "straight"@,
        "right"@ != "sharp right"@,
        "right"@ != "straight"@,
        "sharp right"@ != "straight"@,
{
    reveal_strlit("uturn");
    reveal_strlit("sharp left");
    reveal_strlit("left");
    reveal_strlit("slight left");
    reveal_strlit("slight right");
    reveal_strlit("right");
    reveal_strlit("sharp right");
    reveal_strlit("straight");
    assert("uturn"@.len() == 5);
    assert("sharp left"@.len() == 10);
    assert("left"@.len() == 4);
    assert("slight left"@.len() == 11);
    assert("slight right"@.len() == 12);
    assert("right"@.len() == 5);
    assert("sharp right"@.len() == 11);
    assert("straight"@.len() == 8);
    assert("sharp left"@[1] != "slight left"@[1]);
    assert("slight left"@[7] != "sharp right"@[7]);
    assert("uturn"@[0] != "right"@[0]);
}

/// The words and the icon of a turn to every side: eight modifiers, eight sides.
pub proof fn lemma_sides(kind: Seq<char>)
    requires
        plain(kind),
    ensures
        verb_of(kind, Some("left"@)) == "Turn left"@,
        verb_of(kind, Some("right"@)) == "Turn right"@,
        verb_of(kind, Some("slight left"@)) == "Bear left"@,
        verb_of(kind, Some("slight right"@)) == "Bear right"@,
        verb_of(kind, Some("sharp left"@)) == "Turn sharp left"@,
        verb_of(kind, Some("sharp right"@)) == "Turn sharp right"@,
        verb_of(kind, Some("uturn"@)) == "Make a U-turn"@,
        verb_of(kind, Some("straight"@)) == "Continue"@,
        verb_of(kind, None) == "Continue"@,
        turn_of(kind, Some("slight left"@)) == 2,
        turn_of(kind, Some("left"@)) == 3,
        turn_of(kind, Some("sharp left"@)) == 4,
        turn_of(kind, Some("uturn"@)) == 5,
        turn_of(kind, Some("sharp right"@)) == 6,
        turn_of(kind, Some("right"@)) == 7,
        turn_of(kind, Some("slight right"@)) == 8,
        turn_of(kind, Some("straight"@)) == 1,
        turn_of(kind, None) == 1,
{
    lemma_modifiers_differ();
}

proof fn lemma_said(words: Seq<char>, part: Seq<char>, i: int)
    requires
        0 <= i,
        i + part.len() <= words.len(),
        forall|j: int| 0 <= j < part.len() ==> words[i + j] == #[trigger] part[j],
    ensures
        says(words, part),
{
    assert(words.subrange(i, i + part.len()) =~= part);
}

/// Where no two characters of `words` are the first two of `part`, it does not say it.
proof fn lemma_unsaid(words: Seq<char>, part: Seq<char>)
    requires
        part.len() >= 2,
        forall|i: int|
            0 <= i < words.len() - 1 ==> !(#[trigger] words[i] == part[0] && words[i + 1]
                == part[1]),
    ensures
        !says(words, part),
{
    if says(words, part) {
        let i = choose|i: int|
            0 <= i && i + part.len() <= words.len() && #[trigger] words.subrange(
                i,
                i + part.len(),
            ) == part;
        let found = words.subrange(i, i + part.len());
        assert(words[i] == found[0] && words[i + 1] == found[1]);
    }
}

proof fn lemma_words_for_sides()
    ensures
        says("Turn left"@, "left"@) && !says("Turn left"@, "right"@),
        says("Bear left"@, "left"@) && !says("Bear left"@, "right"@),
        says("Turn sharp left"@, "left"@) && !says("Turn sharp left"@, "right"@),
        says("Turn right"@, "right"@) && !says("Turn right"@, "left"@),
        says("Bear right"@, "right"@) && !says("Bear right"@, "left"@),
        says("Turn sharp right"@, "right"@) && !says("Turn sharp right"@, "left"@),
        says("Keep left"@, "left"@) && !says("Keep left"@, "right"@),
        says("Keep right"@, "right"@) && !says("Keep right"@, "left"@),
{
    reveal_strlit("left");
    reveal_strlit("right");
    reveal_strlit("Turn left");
    reveal_strlit("Bear left");
    reveal_strlit("Turn sharp left");
    reveal_strlit("Turn right");
    reveal_strlit("Bear right");
    reveal_strlit("Turn sharp right");
    reveal_strlit("Keep left");
    reveal_strlit("Keep right");
    lemma_said("Turn left"@, "left"@, 5);
    lemma_said("Bear left"@, "left"@, 5);
    lemma_said("Turn sharp left"@, "left"@, 11);
    lemma_said("Turn right"@, "right"@, 5);
    lemma_said("Bear right"@, "right"@, 5);
    lemma_said("Turn sharp right"@, "right"@, 11);
    lemma_said("Keep left"@, "left"@, 5);
    lemma_said("Keep right"@, "right"@, 5);
    lemma_unsaid("Turn left"@, "right"@);
    lemma_unsaid("Bear left"@, "right"@);
    lemma_unsaid("Turn sharp left"@, "right"@);
    lemma_unsaid("Turn right"@, "left"@);
    lemma_unsaid("Bear right"@, "left"@);
    lemma_unsaid("Turn sharp right"@, "left"@);
    lemma_unsaid("Keep left"@, "right"@);
    lemma_unsaid("Keep right"@, "left"@);
}

/// The words and the icon of a turn agree on the side, whatever its modifier: where the
/// icon points to the left the words say "left" and not "right", and the reverse.
pub proof fn lemma_words_and_icon_agree(kind: Seq<char>, modifier: Option<Seq<char>>)
    requires
        plain(kind),
    ensures
        2 <= turn_of(kind, modifier) <= 4 ==> says(verb_of(kind, modifier), "left"@) && !says(
            verb_of(kind, modifier),
            "right"@,
        ),
        6 <= turn_of(kind, modifier) <= 8 ==> says(verb_of(kind, modifier), "right"@) && !says(
            verb_of(kind, modifier),
            "left"@,
        ),
        turn_of(kind, modifier) == 5 ==> verb_of(kind, modifier) == "Make a U-turn"@,
        1 <= turn_of(kind, modifier) <= 8,
        turn_of(kind, modifier) == 1 ==> verb_of(kind, modifier) == "Continue"@ || (
        modifier matches Some(m) && verb_of(kind, modifier) == "Turn ("@ + m + ")"@),
{
    lemma_words_for_sides();
}

/// At a fork the words say "left" where the way goes left or bears left, and "right"
/// otherwise; the side that they name is the icon's, where the way goes left or right or
/// bears to one of them.
pub proof fn lemma_forks(modifier: Option<Seq<char>>)
    ensures
        ({
            let words = verb_of("fork"@, modifier);
            let left = modifier == Some("left"@) || modifier == Some("slight left"@);
            let right = modifier == Some("right"@) || modifier == Some("slight right"@);
            &&& left ==> says(words, "left"@) && !says(words, "right"@)
            &&& !left ==> says(words, "right"@) && !says(words, "left"@)
            &&& left ==> 2 <= turn_of("fork"@, modifier) <= 3
            &&& right ==> 7 <= turn_of("fork"@, modifier) <= 8
        }),
{
    lemma_words_for_sides();
    lemma_modifiers_differ();
    lemma_kinds_differ();
}

proof fn lemma_kinds_differ()
    ensures
        "depart"@ != "arrive"@,
        "depart"@ != "continue"@,
        "depart"@ != "new name"@,
        "depart"@ != "fork"@,
        "depart"@ != "roundabout"@,
        "depart"@ != "rotary"@,
        "depart"@ != "merge"@,
        "depart"@ != "on ramp"@,
        "depart"@ != "off ramp"@,
        "arrive"@ != "continue"@,
        "arrive"@ != "new name"@,
        "arrive"@ != "fork"@,
        "arrive"@ != "roundabout"@,
        "arrive"@ != "rotary"@,
        "arrive"@ != "merge"@,
        "arrive"@ != "on ramp"@,
        "arrive"@ != "off ramp"@,
        "continue"@ != "fork"@,
        "continue"@ != "roundabout"@,
        "continue"@ != "rotary"@,
        "continue"@ != "merge"@,
        "continue"@ != "on ramp"@,
        "continue"@ != "off ramp"@,
        "new name"@ != "fork"@,
        "new name"@ != "roundabout"@,
        "new name"@ != "rotary"@,
        "new name"@ != "merge"@,
        "new name"@ != "on ramp"@,
        "new name"@ != "off ramp"@,
        "fork"@ != "roundabout"@,
        "fork"@ != "rotary"@,
        "fork"@ != "merge"@,
        "fork"@ != "on ramp"@,
        "fork"@ != "off ramp"@,
        "roundabout"@ != "merge"@,
        "roundabout"@ != "on ramp"@,
        "roundabout"@ != "off ramp"@,
        "rotary"@ != "merge"@,
        "rotary"@ != "on ramp"@,
        "rotary"@ != "off ramp"@,
        "merge"@ != "on ramp"@,
        "merge"@ != "off ramp"@,
        "on ramp"@ != "off ramp"@,
        "turn"@ != "fork"@,
        plain("turn"@),
        plain("end of road"@),
{
    reveal_strlit("depart");
    reveal_strlit("arrive");
    reveal_strlit("continue");
    reveal_strlit("new name");
    reveal_strlit("fork");
    reveal_strlit("roundabout");
    reveal_strlit("rotary");
    reveal_strlit("merge");
    reveal_strlit("on ramp");
    reveal_strlit("off ramp");
    reveal_strlit("turn");
    reveal_strlit("end of road");
    assert("depart"@.len() == 6);
    assert("arrive"@.len() == 6);
    assert("continue"@.len() == 8);
    assert("new name"@.len() == 8);
    assert("fork"@.len() == 4);
    assert("roundabout"@.len() == 10);
    assert("rotary"@.len() == 6);
    assert("merge"@.len() == 5);
    assert("on ramp"@.len() == 7);
    assert("off ramp"@.len() == 8);
    assert("turn"@.len() == 4);
    assert("end of road"@.len() == 11);
    assert("depart"@[0] != "arrive"@[0]);
    assert("depart"@[0] != "rotary"@[0]);
    assert("arrive"@[0] != "rotary"@[0]);
    assert("continue"@[0] != "new name"@[0]);
    assert("continue"@[0] != "off ramp"@[0]);
    assert("new name"@[0] != "off ramp"@[0]);
    assert("fork"@[0] != "turn"@[0]);
}

/// The words and the icon of the other manoeuvres, whatever their modifier.
pub proof fn lemma_other_manoeuvres(modifier: Option<Seq<char>>)
    ensures
        verb_of("depart"@, modifier) == "Head"@ && turn_of("depart"@, modifier) == 1,
        verb_of("arrive"@, modifier) == "You have arrived"@ && turn_of("arrive"@, modifier) == 9,
        verb_of("continue"@, modifier) == "Continue"@ && turn_of("continue"@, modifier) == 1,
        verb_of("new name"@, modifier) == "Continue"@ && turn_of("new name"@, modifier) == 1,
        verb_of("roundabout"@, modifier) == "Take the roundabout"@ && turn_of(
            "roundabout"@,
            modifier,
        ) == 3,
        verb_of("rotary"@, modifier) == "Take the roundabout"@ && turn_of("rotary"@, modifier) == 3,
        verb_of("merge"@, modifier) == "Merge"@,
        verb_of("on ramp"@, modifier) == "Take the on-ramp"@,
        verb_of("off ramp"@, modifier) == "Take the exit"@,
        turn_of("merge"@, modifier) == turn_of("turn"@, modifier),
        turn_of("on ramp"@, modifier) == turn_of("turn"@, modifier),
        turn_of("off ramp"@, modifier) == turn_of("turn"@, modifier),
        turn_of("fork"@, modifier) == turn_of("turn"@, modifier),
{
    lemma_kinds_differ();
}

/// An instruction begins with the words of its manoeuvre and ends with its road, where
/// that has a name; its icon is the manoeuvre's; and its distance is the one measured,
/// in the words and in the number.
pub proof fn lemma_instruction_tells(step: Leg, metres: i64)
    ensures
        ({
            let i = instruction_for(step, metres);
            &&& i.turn_id == step.turn_id
            &&& text::starts_with(i.status_text, step.verb + " in "@)
            &&& text::ends_with(i.status_text, step.name)
            &&& 0 <= metres <= u32::MAX ==> i.distance_m == metres
            &&& metres < 0 ==> i.distance_m == 0
            &&& metres > u32::MAX ==> i.distance_m == u32::MAX
            &&& metres >= 0 ==> exists|digits: Seq<char>|
                {
                    &&& text::value_of(digits) == metres
                    &&& text::starts_with(
                        i.status_text,
                        #[trigger] (step.verb + " in "@ + digits + " m"@),
                    )
                }
        }),
{
    let i = instruction_for(step, metres);
    let front = step.verb + " in "@;
    let digits = signed_decimal(metres as int);
    let whole = front + digits + " m"@;
    reveal_strlit("");
    assert(i.status_text.subrange(0, front.len() as int) =~= front);
    assert(i.status_text.subrange(0, whole.len() as int) =~= whole);
    assert(i.status_text.subrange(
        i.status_text.len() - step.name.len(),
        i.status_text.len() as int,
    ) =~= step.name);
    if metres >= 0 {
        text::lemma_decimal_value(metres as nat);
    }
}

/// What a new position leads to. Without a destination nothing; without a route, a
/// first one is asked for. On a route, the step moves on where the position is within
/// reach of the one that comes next and that is not the last; a new route is asked for
/// where the position is off the route; and an instruction goes out only where the step
/// has moved on. The destination and the route stay.
pub proof fn lemma_position(w: Way, near: bool, off_route: bool)
    requires
        w.route matches Some(r) ==> r.len() <= usize::MAX,
    ensures
        ({
            let (v, step) = moved(w, near, off_route);
            &&& v.fix
            &&& v.destination == w.destination
            &&& v.route == w.route
            &&& v.current == w.current
            &&& step is Idle <==> !w.destination
            &&& step == NavStep::Fetch(Purpose::First) <==> w.destination && w.route is None
            &&& (step matches NavStep::Fetch(Purpose::Again { .. })) <==> w.destination && (
            w.route matches Some(r) && r.len() > 0 && off_route)
            &&& v.next_idx != w.next_idx <==> w.destination && near && (w.route matches Some(r)
                && w.next_idx + 1 < r.len())
            &&& step is Show ==> v.next_idx == w.next_idx + 1
            &&& w.destination && (w.route matches Some(r) && near && w.next_idx + 1 < r.len())
                && !off_route ==> step is Show
            &&& (step matches NavStep::Fetch(Purpose::Again { reached }) ==> (reached
                <==> v.next_idx != w.next_idx))
            &&& !(step is Fail)
        }),
{
}

/// A new destination forgets the route and what is shown, and a route to it is asked
/// for exactly where there is a position. A route, once found, is shown from its first
/// turn on, with the destination and the position kept.
pub proof fn lemma_destination(w: Way, route: Seq<Leg>)
    ensures
        ({
            let (v, step) = redirected(w);
            &&& v.destination
            &&& v.fix == w.fix
            &&& v.route is None
            &&& v.current is None
            &&& step == NavStep::Fetch(Purpose::First) <==> w.fix
            &&& step is Idle <==> !w.fix
        }),
        ({
            let v = with_route(w, route);
            &&& v.route == Some(route)
            &&& v.destination == w.destination
            &&& v.fix == w.fix
            &&& route.len() >= 2 ==> v.next_idx == 1
            &&& route.len() < 2 ==> v.next_idx == 0
        }),
{
}

/// What is shown is the step that comes next, or the last one behind it; with a position
/// its distance is measured from there, and without one it is the length of the step
/// before it.
pub proof fn lemma_shown(w: Way, metres: i64)
    ensures
        w.route is None ==> rebuilt(w, metres).current is None,
        w.route matches Some(r) && r.len() == 0 ==> rebuilt(w, metres).current is None,
        w.route matches Some(r) && w.next_idx < r.len() && r.len() <= usize::MAX ==> {
            &&& rebuilt(w, metres).current == Some(
                instruction_for(w.route->Some_0[w.next_idx as int], metres),
            )
            &&& w.fix ==> shown_step(w) == Some((w.next_idx as int, Asked::ToStep(w.next_idx)))
            &&& !w.fix && w.next_idx > 0 ==> shown_step(w) == Some(
                (w.next_idx as int, Asked::OfStep((w.next_idx - 1) as usize)),
            )
        },
        w.route matches Some(r) && r.len() > 0 && w.next_idx >= r.len() ==> rebuilt(
            w,
            metres,
        ).current == Some(instruction_for(w.route->Some_0.last(), metres)),
        rebuilt(w, metres).route == w.route,
        rebuilt(w, metres).next_idx == w.next_idx,
        rebuilt(w, metres).destination == w.destination,
        rebuilt(w, metres).fix == w.fix,
{
}

proof fn lemma_slashes(s: Seq<char>)
    ensures
        without_slashes(s).len() <= s.len(),
        without_slashes(s) == s.take(without_slashes(s).len() as int),
        forall|i: int| without_slashes(s).len() <= i < s.len() ==> #[trigger] s[i] == '/',
        without_slashes(s).len() > 0 ==> without_slashes(s).last() != '/',
    decreases s.len(),
{
    if s.len() > 0 && s.last() == '/' {
        let t = s.drop_last();
        lemma_slashes(t);
        assert(t.take(without_slashes(t).len() as int) =~= s.take(without_slashes(t).len() as int));
        assert forall|i: int| without_slashes(s).len() <= i < s.len() implies #[trigger] s[i]
            == '/' by {
            if i < t.len() {
                assert(s[i] == t[i]);
            }
        }
    } else {
        assert(s.take(s.len() as int) =~= s);
    }
}

/// The address of a route begins with the server's, without slashes at its end, however
/// many it was given with; then come the start and the end, each with its longitude
/// first, and the demand for steps, points and the whole way.
pub proof fn lemma_address(
    base: Seq<char>,
    start_lon: Seq<char>,
    start_lat: Seq<char>,
    end_lon: Seq<char>,
    end_lat: Seq<char>,
)
    ensures
        url_of(base + "/"@, start_lon, start_lat, end_lon, end_lat) == url_of(
            base,
            start_lon,
            start_lat,
            end_lon,
            end_lat,
        ),
        base.len() > 0 && base.last() != '/' ==> url_of(
            base,
            start_lon,
            start_lat,
            end_lon,
            end_lat,
        ) == base + ("/route/v1/driving/"@ + (start_lon + ","@ + start_lat) + ";"@ + (end_lon + ","@
            + end_lat) + "?steps=true&geometries=geojson&overview=full"@),
        without_slashes(base).len() > 0 ==> without_slashes(base).last() != '/',
        forall|i: int| without_slashes(base).len() <= i < base.len() ==> #[trigger] base[i] == '/',
        without_slashes(base) == base.take(without_slashes(base).len() as int),
{
    lemma_slashes(base);
    reveal_strlit("/");
    assert((base + "/"@).drop_last() =~= base);
    assert((base + "/"@).last() == '/');
    if base.len() > 0 && base.last() != '/' {
        assert(url_of(base, start_lon, start_lat, end_lon, end_lat) =~= base + (
        "/route/v1/driving/"@ + (start_lon + ","@ + start_lat) + ";"@ + (end_lon + ","@ + end_lat)
            + "?steps=true&geometries=geojson&overview=full"@));
    }
}

/// A step leads onto the road that it is made for, and has the words and the icon of its
/// manoeuvre.
pub proof fn lemma_step(kind: Seq<char>, modifier: Option<Seq<char>>, name: Seq<char>)
    ensures
        leg_of(kind, modifier, name).name == name,
        leg_of(kind, modifier, name).turn_id == turn_of(kind, modifier),
        leg_of(kind, modifier, name).verb == verb_of(kind, modifier),
{
}

} // verus!
