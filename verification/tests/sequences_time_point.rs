use chronoloom::{TimeBound, TimePointEvent, TimePointSequence};

/// Build a sequence by inserting `(timestamp, value)` pairs one at a time,
/// in the order given.
fn inserted<T>(events: impl IntoIterator<Item = (i64, T)>) -> TimePointSequence<T> {
    let mut sequence = TimePointSequence::new();
    for (timestamp, value) in events {
        sequence.insert(TimePointEvent::new(timestamp, value));
    }

    sequence
}

/// Build a sequence from `(timestamp, value)` pairs all at once.
fn collected<T>(events: impl IntoIterator<Item = (i64, T)>) -> TimePointSequence<T> {
    TimePointSequence::from_events(
        events
            .into_iter()
            .map(|(timestamp, value)| TimePointEvent::new(timestamp, value))
            .collect(),
    )
}

/// The timestamps a sequence reads, in order.
fn timestamps<T>(sequence: &TimePointSequence<T>) -> Vec<i64> {
    sequence.iter().map(TimePointEvent::timestamp).collect()
}

/// The values a sequence reads, in order.
fn values<T: Copy>(sequence: &TimePointSequence<T>) -> Vec<T> {
    sequence.iter().map(|event| *event.value()).collect()
}

#[test]
fn events_read_in_time_order_however_they_arrive() {
    assert_eq!(
        timestamps(&inserted([(30, 'c'), (10, 'a'), (20, 'b')])),
        [10, 20, 30]
    );
    assert_eq!(
        timestamps(&collected([(30, 'c'), (10, 'a'), (20, 'b')])),
        [10, 20, 30]
    );
}

#[test]
fn insertion_and_collection_agree() {
    let events = [(30, 'c'), (10, 'a'), (20, 'b'), (10, 'z'), (-5, 'y')];

    assert_eq!(inserted(events), collected(events));
}

#[test]
fn negative_timestamps_sort_before_positive_ones() {
    assert_eq!(
        timestamps(&inserted([(5, 'c'), (-10, 'a'), (0, 'b')])),
        [-10, 0, 5]
    );
}

#[test]
fn several_events_may_share_an_instant() {
    let readings = inserted([(10, 'a'), (10, 'b'), (20, 'c')]);

    assert_eq!(readings.len(), 3);
    assert_eq!(readings.instant_count(), 2);
    assert_eq!(readings.get(10).len(), 2);
    assert_eq!(timestamps(&readings), [10, 10, 20]);
}

#[test]
fn events_sharing_an_instant_keep_insertion_order() {
    assert_eq!(
        values(&inserted([(10, 'c'), (10, 'a'), (10, 'b')])),
        ['c', 'a', 'b']
    );
}

#[test]
fn an_out_of_order_insert_lands_after_events_sharing_its_instant() {
    let readings = inserted([(10, 'a'), (30, 'c'), (10, 'z')]);

    assert_eq!(values(&readings), ['a', 'z', 'c']);
}

#[test]
fn collecting_keeps_source_order_within_an_instant() {
    assert_eq!(
        values(&collected([(10, 'c'), (20, 'd'), (10, 'a')])),
        ['c', 'a', 'd']
    );
}

#[test]
fn remove_takes_every_event_at_the_instant() {
    let mut readings = inserted([(10, 'a'), (10, 'b'), (20, 'c')]);

    let removed: Vec<char> = readings
        .remove(10)
        .into_iter()
        .map(TimePointEvent::into_value)
        .collect();

    assert_eq!(removed, ['a', 'b']);
    assert_eq!(readings.len(), 1);
    assert_eq!(readings.instant_count(), 1);
    assert!(!readings.contains(10));
}

#[test]
fn remove_keeps_the_surrounding_events_in_order() {
    let mut readings = inserted([(10, 'a'), (20, 'b'), (30, 'c')]);
    readings.remove(20);

    assert_eq!(timestamps(&readings), [10, 30]);
}

#[test]
fn removing_an_absent_instant_changes_nothing() {
    let mut readings = inserted([(10, 'a')]);

    assert!(readings.remove(99).is_empty());
    assert!(readings.remove(-99).is_empty());
    assert_eq!(readings.len(), 1);
}

#[test]
fn len_stays_exact_across_interleaved_mutations() {
    let mut readings = inserted([(10, 'a'), (10, 'b'), (20, 'c')]);
    assert_eq!(readings.len(), 3);

    readings.remove(10);
    assert_eq!(readings.len(), 1);

    readings.extend(vec![TimePointEvent::new(30, 'd'), TimePointEvent::new(30, 'e')]);
    assert_eq!(readings.len(), 3);

    readings.insert(TimePointEvent::new(20, 'f'));
    assert_eq!(readings.len(), 4);
    assert_eq!(timestamps(&readings), [20, 20, 30, 30]);

    readings.clear();
    assert_eq!(readings.len(), 0);
    assert_eq!(readings.instant_count(), 0);
    assert!(readings.is_empty());
}

#[test]
fn len_counts_events_while_instant_count_counts_instants() {
    let readings = inserted([(10, 'a'), (10, 'b'), (10, 'c')]);

    assert_eq!(readings.len(), 3);
    assert_eq!(readings.instant_count(), 1);
}

#[test]
fn get_is_empty_for_an_instant_that_holds_nothing() {
    let readings = inserted([(10, 'a'), (30, 'b')]);

    assert!(readings.get(20).is_empty());
    assert!(readings.get(0).is_empty());
    assert!(readings.get(99).is_empty());
    assert!(!readings.contains(20));
}

#[test]
fn as_slice_exposes_every_event_in_order() {
    let readings = inserted([(20, 'b'), (10, 'a')]);

    assert_eq!(readings.as_slice().len(), 2);
    assert_eq!(readings.as_slice()[0].timestamp(), 10);
}

#[test]
fn nth_and_indexing_read_by_position() {
    let readings = inserted([(20, 'b'), (10, 'a')]);

    assert_eq!(readings.nth(0).map(TimePointEvent::timestamp), Some(10));
    assert_eq!(readings.nth(1).map(TimePointEvent::timestamp), Some(20));
    assert!(readings.nth(2).is_none());
    assert_eq!(readings.as_slice()[1].timestamp(), 20);
}

#[test]
fn range_excludes_its_end_and_includes_its_start() {
    let readings = inserted([(10, 'a'), (20, 'b'), (30, 'c')]);

    let window: Vec<i64> = readings
        .range(TimeBound::Included(10), TimeBound::Excluded(30))
        .iter()
        .map(TimePointEvent::timestamp)
        .collect();
    assert_eq!(window, [10, 20]);
}

#[test]
fn range_honours_inclusive_and_unbounded_ends() {
    let readings = inserted([(10, 'a'), (20, 'b'), (30, 'c')]);

    assert_eq!(
        readings
            .range(TimeBound::Included(10), TimeBound::Included(30))
            .len(),
        3
    );
    assert_eq!(
        readings
            .range(TimeBound::Included(20), TimeBound::Unbounded)
            .len(),
        2
    );
    assert_eq!(
        readings
            .range(TimeBound::Unbounded, TimeBound::Excluded(20))
            .len(),
        1
    );
    assert_eq!(
        readings
            .range(TimeBound::Unbounded, TimeBound::Unbounded)
            .len(),
        3
    );
}

#[test]
fn range_between_occupied_instants_yields_nothing() {
    let readings = inserted([(10, 'a'), (30, 'b')]);

    assert!(readings
        .range(TimeBound::Included(15), TimeBound::Excluded(25))
        .is_empty());
    assert!(readings
        .range(TimeBound::Included(100), TimeBound::Excluded(200))
        .is_empty());
    assert!(readings
        .range(TimeBound::Included(-200), TimeBound::Excluded(-100))
        .is_empty());
}

#[test]
fn range_yields_every_event_at_a_shared_instant() {
    let readings = inserted([(10, 'a'), (20, 'b'), (20, 'c'), (30, 'd')]);

    let window: Vec<char> = readings
        .range(TimeBound::Included(20), TimeBound::Excluded(30))
        .iter()
        .map(|e| *e.value())
        .collect();
    assert_eq!(window, ['b', 'c']);
}

#[test]
fn time_point_first_and_last_bracket_the_sequence() {
    let readings = inserted([(20, 'b'), (10, 'a'), (30, 'c')]);

    assert_eq!(readings.first().map(TimePointEvent::timestamp), Some(10));
    assert_eq!(readings.last().map(TimePointEvent::timestamp), Some(30));
}

#[test]
fn first_and_last_pick_the_right_end_of_a_shared_instant() {
    let readings = inserted([(10, 'a'), (10, 'b')]);

    assert_eq!(readings.first().map(|e| *e.value()), Some('a'));
    assert_eq!(readings.last().map(|e| *e.value()), Some('b'));
}

#[test]
fn before_and_after_include_an_exact_match() {
    let readings = inserted([(10, 'a'), (20, 'b')]);

    assert_eq!(readings.before(20).map(TimePointEvent::timestamp), Some(20));
    assert_eq!(readings.after(10).map(TimePointEvent::timestamp), Some(10));
}

#[test]
fn before_and_after_step_to_the_neighbouring_instant() {
    let readings = inserted([(10, 'a'), (20, 'b')]);

    assert_eq!(readings.before(15).map(TimePointEvent::timestamp), Some(10));
    assert_eq!(readings.after(15).map(TimePointEvent::timestamp), Some(20));
}

#[test]
fn before_and_after_pick_the_right_end_of_a_shared_instant() {
    let readings = inserted([(10, 'a'), (10, 'b')]);

    assert_eq!(readings.before(10).map(|e| *e.value()), Some('b'));
    assert_eq!(readings.after(10).map(|e| *e.value()), Some('a'));
}

#[test]
fn before_and_after_run_out_past_the_edges() {
    let readings = inserted([(10, 'a'), (20, 'b')]);

    assert!(readings.before(5).is_none());
    assert!(readings.after(25).is_none());
}

#[test]
fn nearest_picks_the_closer_side() {
    let readings = inserted([(10, 'a'), (20, 'b')]);

    assert_eq!(
        readings.nearest(12).map(TimePointEvent::timestamp),
        Some(10)
    );
    assert_eq!(
        readings.nearest(18).map(TimePointEvent::timestamp),
        Some(20)
    );
}

#[test]
fn nearest_breaks_a_tie_toward_the_earlier_event() {
    let readings = inserted([(10, 'a'), (20, 'b')]);

    assert_eq!(
        readings.nearest(15).map(TimePointEvent::timestamp),
        Some(10)
    );
}

#[test]
fn nearest_falls_back_to_whichever_side_exists() {
    let readings = inserted([(10, 'a')]);

    assert_eq!(readings.nearest(5).map(TimePointEvent::timestamp), Some(10));
    assert_eq!(
        readings.nearest(50).map(TimePointEvent::timestamp),
        Some(10)
    );
}

#[test]
fn nearest_survives_the_timestamp_extremes() {
    let readings = inserted([(i64::MIN, 'a'), (i64::MAX, 'b')]);

    assert_eq!(
        readings.nearest(-1).map(TimePointEvent::timestamp),
        Some(i64::MIN)
    );
    assert_eq!(
        readings.nearest(1).map(TimePointEvent::timestamp),
        Some(i64::MAX)
    );
}

#[test]
fn time_point_an_empty_sequence_answers_nothing() {
    let readings: TimePointSequence<char> = TimePointSequence::new();

    assert!(readings.is_empty());
    assert_eq!(readings.len(), 0);
    assert_eq!(readings.instant_count(), 0);
    assert!(readings.get(10).is_empty());
    assert!(readings.as_slice().is_empty());
    assert!(readings
        .range(TimeBound::Unbounded, TimeBound::Unbounded)
        .is_empty());
    assert!(readings.nth(0).is_none());
    assert!(readings.first().is_none());
    assert!(readings.last().is_none());
    assert!(readings.before(10).is_none());
    assert!(readings.after(10).is_none());
    assert!(readings.nearest(10).is_none());
    assert_eq!(readings.iter().count(), 0);
}

#[test]
fn time_point_new_and_default_agree() {
    let built: TimePointSequence<char> = TimePointSequence::new();

    assert_eq!(built, TimePointSequence::default());
}

#[test]
fn time_point_collecting_round_trips_through_into_iter() {
    let readings = collected([(30, 'c'), (10, 'a'), (20, 'b'), (10, 'z')]);

    let owned: Vec<(i64, char)> = readings
        .clone()
        .into_events()
        .into_iter()
        .map(TimePointEvent::into_parts)
        .collect();
    assert_eq!(owned, [(10, 'a'), (10, 'z'), (20, 'b'), (30, 'c')]);

    let rebuilt: TimePointSequence<char> = TimePointSequence::from_events(
        owned
            .into_iter()
            .map(|(timestamp, value)| TimePointEvent::new(timestamp, value))
            .collect(),
    );
    assert_eq!(rebuilt, readings);
}

#[test]
fn extend_merges_onto_occupied_instants() {
    let mut readings = inserted([(10, 'a')]);
    readings.extend(vec![TimePointEvent::new(10, 'b'), TimePointEvent::new(20, 'c')]);

    assert_eq!(readings.len(), 3);
    assert_eq!(values(&readings), ['a', 'b', 'c']);
}

#[test]
fn extend_reorders_when_the_additions_arrive_out_of_order() {
    let mut readings = inserted([(20, 'b')]);
    readings.extend(vec![TimePointEvent::new(30, 'c'), TimePointEvent::new(10, 'a')]);

    assert_eq!(timestamps(&readings), [10, 20, 30]);
}

#[test]
fn extend_onto_an_empty_sequence_still_orders() {
    let mut readings = TimePointSequence::new();
    readings.extend(vec![TimePointEvent::new(20, 'b'), TimePointEvent::new(10, 'a')]);

    assert_eq!(timestamps(&readings), [10, 20]);
}

#[test]
fn time_point_borrowed_iteration_leaves_the_sequence_usable() {
    let readings = inserted([(10, 'a'), (20, 'b')]);

    let borrowed: Vec<i64> = readings.iter().map(TimePointEvent::timestamp).collect();

    assert_eq!(borrowed, [10, 20]);
    assert_eq!(readings.len(), 2);
}

// Edge cases and laws on concrete values.

#[test]
fn time_point_range_with_exclusive_start_skips_the_start_instant() {
    let readings = inserted([(10, 'a'), (20, 'b'), (20, 'c'), (30, 'd')]);

    let window: Vec<char> = readings
        .range(TimeBound::Excluded(10), TimeBound::Included(20))
        .iter()
        .map(|e| *e.value())
        .collect();
    assert_eq!(window, ['b', 'c']);
}

#[test]
fn time_point_extend_keeps_ordered_additions_in_arrival_order() {
    let mut readings = inserted([(10, 'a'), (20, 'b')]);
    readings.extend(vec![
        TimePointEvent::new(20, 'c'),
        TimePointEvent::new(25, 'd'),
        TimePointEvent::new(25, 'e'),
    ]);

    assert_eq!(values(&readings), ['a', 'b', 'c', 'd', 'e']);
}

#[test]
fn time_point_extend_with_a_later_out_of_order_pair_is_stable() {
    let mut readings = inserted([(10, 'a')]);
    readings.extend(vec![
        TimePointEvent::new(30, 'x'),
        TimePointEvent::new(10, 'b'),
        TimePointEvent::new(30, 'y'),
    ]);

    assert_eq!(values(&readings), ['a', 'b', 'x', 'y']);
}

#[test]
fn time_point_nearest_prefers_an_exact_match() {
    let readings = inserted([(10, 'a'), (20, 'b'), (20, 'c'), (30, 'd')]);

    assert_eq!(readings.nearest(20).map(|e| *e.value()), Some('c'));
}

#[test]
fn time_point_instant_count_of_distinct_instants() {
    let readings = collected([(5, 'a'), (-5, 'b'), (5, 'c'), (0, 'd'), (-5, 'e')]);

    assert_eq!(readings.instant_count(), 3);
    assert_eq!(readings.len(), 5);
}

#[test]
fn time_point_insert_appends_to_the_run_at_its_instant() {
    let mut readings = inserted([(10, 'a'), (20, 'b'), (10, 'c')]);
    readings.insert(TimePointEvent::new(10, 'd'));

    let at_ten: Vec<char> = readings.get(10).iter().map(|e| *e.value()).collect();
    assert_eq!(at_ten, ['a', 'c', 'd']);
    let at_twenty: Vec<char> = readings.get(20).iter().map(|e| *e.value()).collect();
    assert_eq!(at_twenty, ['b']);
}

#[test]
#[should_panic(expected = "index out of bounds")]
fn time_point_indexing_past_the_end_panics() {
    let readings = inserted([(10, 'a')]);

    let _ = readings.as_slice()[5];
}

#[test]
fn range_over_an_empty_window_yields_nothing() {
    let readings = inserted([(10, 'a'), (20, 'b'), (30, 'c')]);

    assert!(readings
        .range(TimeBound::Included(20), TimeBound::Excluded(20))
        .is_empty());
    assert!(readings
        .range(TimeBound::Excluded(20), TimeBound::Included(20))
        .is_empty());
    assert_eq!(
        readings
            .range(TimeBound::Included(20), TimeBound::Included(20))
            .len(),
        1
    );
}

#[test]
fn a_cloned_sequence_is_independent_of_the_original() {
    let readings = inserted([(10, 'a'), (20, 'b')]);
    let mut copy = readings.clone();
    assert_eq!(copy, readings);

    copy.insert(TimePointEvent::new(15, 'c'));
    assert_eq!(readings.len(), 2);
    let seen: Vec<i64> = copy.iter().map(|e| e.timestamp()).collect();
    assert_eq!(seen, [10, 15, 20]);
}
