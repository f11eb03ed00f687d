//! Directions.
use aabox::nav::destination_file::{
    label_or_coordinates, parse_cli, watch_step, DestinationText, FileState, FileTime,
};
use aabox::nav::osrm::{
    check_answer, maneuver_to_turn_id, maneuver_to_verb, route_url, Asked, NavStep, OsrmNavSource,
    Purpose, Route, RouteError, RouteStep, DEFAULT_OSRM_BASE_URL,
};
use aabox::nav::runner::{next, NavRunnerConfig, RunnerEvent, RunnerStep};
use aabox::nav::source::StaticDemoSource;

// ---- Manoeuvres -------------------------------------------------------------

#[test]
fn maneuver_to_turn_id_table() {
    assert_eq!(maneuver_to_turn_id("turn", Some("left")), 3);
    assert_eq!(maneuver_to_turn_id("turn", Some("right")), 7);
    assert_eq!(maneuver_to_turn_id("turn", Some("uturn")), 5);
    assert_eq!(maneuver_to_turn_id("depart", None), 1);
    assert_eq!(maneuver_to_turn_id("arrive", None), 9);
    assert_eq!(maneuver_to_turn_id("turn", Some("sharp right")), 6);
    assert_eq!(maneuver_to_turn_id("turn", Some("slight left")), 2);
}

#[test]
fn maneuver_verb_includes_modifier() {
    let v = maneuver_to_verb("turn", Some("left"));
    assert!(v.contains("left"), "got: {v}");
    let v = maneuver_to_verb("arrive", None);
    assert!(v.to_lowercase().contains("arrived"), "got: {v}");
}

// ---- The router -------------------------------------------------------------

#[test]
fn routes_are_asked_for() {
    let url = route_url(DEFAULT_OSRM_BASE_URL, "-77.000000", "38.000000", "-76.9", "38.1");
    assert!(url.starts_with(DEFAULT_OSRM_BASE_URL));
    assert!(url.contains("/route/v1/driving/-77.000000,38.000000;-76.9,38.1"));
    assert!(url.contains("steps=true"));
}

#[test]
fn answers_without_a_route() {
    assert_eq!(check_answer("Ok", 1), Ok(()));
    assert_eq!(check_answer("Ok", 0), Err(RouteError::Missing));
    assert_eq!(check_answer("NoRoute", 0), Err(RouteError::Refused));
    assert_eq!(check_answer("NoRoute", 2), Err(RouteError::Refused));
}

/// A departure, a left turn onto Main St, and the arrival.
fn canned_route() -> Route {
    Route {
        steps: vec![
            RouteStep::of_maneuver("depart", None, ""),
            RouteStep::of_maneuver("turn", Some("left"), "Main St"),
            RouteStep::of_maneuver("arrive", None, "Main St"),
        ],
    }
}

#[test]
fn osrm_client_parses_canned_response() {
    let route = canned_route();
    assert_eq!(route.steps.len(), 3);
    assert_eq!(route.steps[0].turn_id, 1); // depart
    assert_eq!(route.steps[1].turn_id, 3); // turn left
    assert_eq!(route.steps[1].name, "Main St");
    assert_eq!(route.steps[2].turn_id, 9); // arrive
}

#[test]
fn osrm_source_advances_step_on_arrival() {
    let mut src = OsrmNavSource::new();

    // No fix yet, so nothing is asked of the server: there is nothing to start from.
    assert_eq!(src.set_destination(), NavStep::Idle);
    assert!(src.route.is_none());
    assert!(src.current_instruction().is_none());

    // The first fix has the route fetched, and the turn is shown.
    assert_eq!(src.update_position(false, false), NavStep::Fetch(Purpose::First));
    assert_eq!(src.route_found(canned_route()), NavStep::Show);
    assert_eq!(src.asked(), Some(Asked::ToStep(1)));
    src.rebuild_current(111);
    let instr = src
        .current_instruction()
        .expect("first instruction after bootstrap");
    assert_eq!(instr.turn_id, 3);
    assert!(
        instr.status_text.contains("Main St"),
        "got: {}",
        instr.status_text
    );
    assert_eq!(instr.distance_m, 111);
    assert_eq!(src.next_idx, 1);

    // Near the turn, the arrival is next.
    assert_eq!(src.update_position(true, false), NavStep::Show);
    src.rebuild_current(88);
    let instr = src.current_instruction().expect("instruction after advance");
    assert_eq!(instr.turn_id, 9, "expected arrive icon");
    assert_eq!(src.next_idx, 2);
}

#[test]
fn leaving_the_route_asks_again() {
    let mut src = OsrmNavSource::new();
    src.set_destination();
    src.update_position(false, false);
    src.route_found(canned_route());
    assert_eq!(
        src.update_position(false, true),
        NavStep::Fetch(Purpose::Again { reached: false })
    );
    // Where there is no other route, the old one is kept.
    assert_eq!(src.route_failed(Purpose::Again { reached: false }), NavStep::Refresh);
    assert_eq!(src.route_failed(Purpose::Again { reached: true }), NavStep::Show);
    assert_eq!(src.route.as_ref().unwrap().steps.len(), 3);
    // Without any route there is nothing to show.
    assert_eq!(src.route_failed(Purpose::First), NavStep::Fail);
}

#[test]
fn the_same_step_is_not_sent_again() {
    let mut src = OsrmNavSource::new();
    src.set_destination();
    src.update_position(false, false);
    src.route_found(canned_route());
    assert_eq!(src.update_position(false, false), NavStep::Refresh);
    assert_eq!(src.next_idx, 1);
    src.rebuild_current(80);
    assert_eq!(src.current_instruction().unwrap().distance_m, 80);
    // Nothing comes behind the arrival.
    assert_eq!(src.update_position(true, false), NavStep::Show);
    assert_eq!(src.update_position(true, false), NavStep::Refresh);
    assert_eq!(src.next_idx, 2);
}

#[test]
fn positions_without_a_destination() {
    let mut src = OsrmNavSource::new();
    assert_eq!(src.update_position(false, false), NavStep::Idle);
    // With a position, a destination is routed to at once.
    assert_eq!(src.set_destination(), NavStep::Fetch(Purpose::First));
}

// ---- The demonstration ------------------------------------------------------

#[test]
fn static_demo_emits_on_every_call() {
    let mut s = StaticDemoSource::default();
    let first = s.set_destination();
    assert!(first.is_some());
    for _ in 0..3 {
        let upd = s.update_position();
        assert!(upd.is_some());
    }
    assert_eq!(s.updates(), 3);
    assert!(s.current_instruction().is_some());
}

// ---- Destinations -----------------------------------------------------------

/// A destination with numbers for coordinates.
fn destination(s: &str) -> Option<(f64, f64, String)> {
    let d: DestinationText = parse_cli(s).ok()?;
    Some((d.lat.parse().ok()?, d.lon.parse().ok()?, d.label))
}

#[test]
fn parse_cli_basic() {
    let (lat, lon, label) = destination("37.7749,-122.4194,Apple HQ").unwrap();
    assert!((lat - 37.7749).abs() < 1e-9);
    assert!((lon - -122.4194).abs() < 1e-9);
    assert_eq!(label, "Apple HQ");
}

#[test]
fn parse_cli_no_label() {
    let (_, _, label) = destination("1.5,2.5").unwrap();
    assert!(label.is_empty());
}

#[test]
fn parse_cli_rejects_malformed() {
    assert!(destination("not-a-number,0").is_none());
    assert!(destination("oneonly").is_none());
    assert!(parse_cli("oneonly").is_err());
}

#[test]
fn labels_may_hold_commas() {
    let d = parse_cli(" 1 , 2 , Main St, Springfield ").unwrap();
    assert_eq!(
        (d.lat.as_str(), d.lon.as_str(), d.label.as_str()),
        ("1", "2", "Main St, Springfield")
    );
}

#[test]
fn unnamed_destinations_show_coordinates() {
    assert_eq!(label_or_coordinates("Home", "1.0", "2.0"), "Home");
    let s = label_or_coordinates("", "1.00000", "2.00000");
    assert!(s.contains("1.00000") && s.contains("2.00000"));
}

#[test]
fn destination_files_are_read_once() {
    let t = FileTime { seconds: 1, nanos: 0 };
    let (last, read) = watch_step(None, FileState::Changed(Some(t)));
    assert!(read);
    let (last, read) = watch_step(last, FileState::Changed(Some(t)));
    assert!(!read);
    let later = FileTime { seconds: 2, nanos: 0 };
    let (last, read) = watch_step(last, FileState::Changed(Some(later)));
    assert!(read);
    // What cannot be looked at changes nothing; what was missing is read again.
    assert_eq!(watch_step(last, FileState::Unknown), (last, false));
    let (last, read) = watch_step(last, FileState::Missing);
    assert!(!read);
    assert!(watch_step(last, FileState::Changed(Some(later))).1);
}

// ---- The runner -------------------------------------------------------------

#[test]
fn runner_emits_on_destination_then_gps() {
    let cfg = NavRunnerConfig::default();
    let mut src = StaticDemoSource::default();
    assert!(matches!(
        next(&cfg, RunnerEvent::Started(src.current_instruction())),
        RunnerStep::Wait
    ));
    match next(&cfg, RunnerEvent::Said(src.set_destination())) {
        RunnerStep::Send(instr) => assert_eq!(instr.turn_id, 1),
        _ => panic!("a destination gives an instruction"),
    }
    match next(&cfg, RunnerEvent::Said(src.update_position())) {
        RunnerStep::Send(instr) => assert_eq!(instr.turn_id, 1),
        _ => panic!("a position gives an instruction"),
    }
    assert!(matches!(next(&cfg, RunnerEvent::Said(None)), RunnerStep::Wait));
    assert!(matches!(next(&cfg, RunnerEvent::Failed), RunnerStep::Wait));
}

#[test]
fn runner_exits_when_nav_tx_closed() {
    let cfg = NavRunnerConfig { emit_initial: true };
    let src = StaticDemoSource::default();
    assert!(matches!(
        next(&cfg, RunnerEvent::Started(src.current_instruction())),
        RunnerStep::Send(_)
    ));
    assert!(matches!(next(&cfg, RunnerEvent::NotTaken), RunnerStep::Exit));
    assert!(matches!(next(&cfg, RunnerEvent::DestinationsClosed), RunnerStep::Exit));
    assert!(matches!(next(&cfg, RunnerEvent::PositionsClosed), RunnerStep::Exit));
}
