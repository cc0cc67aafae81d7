use chronoloom::{TimePointEvent, TimePointSequence};
use std::collections::BTreeSet;

#[test]
fn new_exposes_timestamp_and_value() {
    let event = TimePointEvent::new(42, 3.5_f64);

    assert_eq!(event.timestamp(), 42);
    assert_eq!(*event.value(), 3.5);
}

#[test]
fn zero_and_negative_timestamps_are_accepted() {
    assert_eq!(TimePointEvent::new(0, ()).timestamp(), 0);
    assert_eq!(TimePointEvent::new(-1, ()).timestamp(), -1);
    assert_eq!(TimePointEvent::new(i64::MIN, ()).timestamp(), i64::MIN);
}

/// A non-copy payload, checked on the event and on a sequence of events.
#[test]
fn time_point_payload_may_be_a_non_copy_value() {
    let event = TimePointEvent::new(1, String::from("booting"));

    assert_eq!(event.value(), "booting");
    assert_eq!(event.into_value(), "booting");

    let mut readings = TimePointSequence::new();
    readings.insert(TimePointEvent::new(10, String::from("start")));
    readings.insert(TimePointEvent::new(20, String::from("stop")));

    assert_eq!(readings.first().map(|e| e.value().as_str()), Some("start"));
    assert_eq!(readings.get(20)[0].value(), "stop");
}

/// A collection payload, checked on the event and on a sequence of events.
#[test]
fn time_point_payload_may_be_a_collection() {
    let tags = BTreeSet::from([String::from("alpha"), String::from("beta")]);
    let event = TimePointEvent::new(1, tags.clone());

    assert_eq!(event.value(), &tags);

    let mut readings = TimePointSequence::new();
    readings.insert(TimePointEvent::new(10, tags.clone()));

    assert_eq!(readings.get(10)[0].value(), &tags);
}

#[test]
fn time_point_into_parts_round_trips_the_constructor_arguments() {
    let event = TimePointEvent::new(9, 'z');

    assert_eq!(event.into_parts(), (9, 'z'));
}

#[test]
fn map_transforms_the_value_and_preserves_the_timestamp() {
    let event = TimePointEvent::new(9, 2_i32);
    let mapped = event.map(|v| v.to_string());

    assert_eq!(mapped.timestamp(), 9);
    assert_eq!(mapped.value(), "2");
}

#[test]
fn events_compare_on_both_fields() {
    assert_eq!(TimePointEvent::new(1, 'a'), TimePointEvent::new(1, 'a'));
    assert_ne!(TimePointEvent::new(1, 'a'), TimePointEvent::new(2, 'a'));
    assert_ne!(TimePointEvent::new(1, 'a'), TimePointEvent::new(1, 'b'));
}

#[test]
fn time_point_map_keeps_extreme_timestamps() {
    let event = TimePointEvent::new(i64::MAX, 1_u8).map(|v| v + 1);

    assert_eq!(event.into_parts(), (i64::MAX, 2));
}
