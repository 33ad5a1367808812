//! Where snapshots come from, and what a search is told about its space.

use nfe::car::source::{build_vehicle, Lookahead, VehicleChoice};
use nfe::car::tune::{audit_search_space, has_laps, ParamSpec, Reading, TuneArgs};

fn parse(args: &[&str]) -> TuneArgs {
    let raw: Vec<String> = args.iter().map(|arg| arg.to_string()).collect();
    let read: Vec<Reading> = raw
        .iter()
        .map(|_| Reading {
            single: None,
            double: None,
        })
        .collect();
    TuneArgs::parse(&raw, &read)
}

#[test]
fn vehicles_are_chosen_by_name() {
    assert_eq!(build_vehicle("dynamic", false), Some(VehicleChoice::Dynamic));
    assert_eq!(build_vehicle("identified", true), Some(VehicleChoice::Identified));
    assert_eq!(build_vehicle("identified", false), None);
    assert_eq!(build_vehicle("kinematic", false), Some(VehicleChoice::Kinematic));
    assert_eq!(build_vehicle("Dynamic", true), Some(VehicleChoice::Kinematic));
    assert_eq!(build_vehicle("", false), Some(VehicleChoice::Kinematic));
}

#[test]
fn recordings_are_played_in_order() {
    let items = vec![7, 3, 9];
    let mut ahead: Lookahead<i32> = Lookahead::open(items.first().copied());
    let mut played = Vec::new();
    let mut at = 0;
    while !ahead.is_exhausted() {
        at += 1;
        let item = ahead.take().unwrap();
        ahead.refill(items.get(at).copied());
        played.push(item);
    }
    assert_eq!(played, items);
    assert!(ahead.take().is_none());
    assert!(ahead.is_exhausted());
}

#[test]
fn empty_recordings_are_over_at_once() {
    let mut ahead: Lookahead<i32> = Lookahead::open(None);
    assert!(ahead.is_exhausted());
    assert!(ahead.take().is_none());
}

#[test]
fn broken_recordings_end_at_the_next_take() {
    let mut ahead = Lookahead::open(Some(1));
    assert_eq!(ahead.take(), Some(1));
    assert!(!ahead.is_exhausted());
    assert!(ahead.take().is_none());
    assert!(ahead.is_exhausted());
}

#[test]
fn search_spaces_are_audited() {
    let space = vec![
        ParamSpec::Integer,
        ParamSpec::Continuous { log: true },
        ParamSpec::Continuous { log: false },
        ParamSpec::Integer,
    ];
    assert_eq!(audit_search_space(&space), (2, 1));
    assert_eq!(audit_search_space(&Vec::new()), (0, 0));
}

#[test]
fn simulated_tuning_has_a_track_and_laps() {
    assert_eq!(parse(&["car-tune"]).world_path(), "track.json");
    assert_eq!(parse(&["car-tune", "--sim", "oval.json"]).world_path(), "oval.json");
    assert_eq!(parse(&["car-tune"]).laps_wanted(), 3);
    assert_eq!(parse(&["car-tune", "--target-laps", "0"]).laps_wanted(), 1);
    assert!(!has_laps(1));
    assert!(has_laps(2));
}
