use audioverse_core::audio_world::SourceRegistry;

#[test]
fn sources_are_found_and_planned_in_key_order() {
    let mut r = SourceRegistry::new();
    r.add_audio_source(7, 100);
    r.add_audio_source(3, 101);
    r.add_transform(7);
    r.add_transform(3);
    assert_eq!(r.source_of(7), Some(100));
    assert_eq!(r.source_of(4), None);
    assert_eq!(r.update_plan(), vec![(7, 100), (3, 101)]);
}

#[test]
fn removal_moves_last_key_into_place() {
    let mut r = SourceRegistry::new();
    r.add_audio_source(1, 10);
    r.add_audio_source(2, 20);
    r.add_audio_source(3, 30);
    for e in 1..=3 {
        r.add_transform(e);
    }
    assert_eq!(r.remove_audio_source(1), Some(10));
    assert_eq!(r.update_plan(), vec![(3, 30), (2, 20)]);
    assert_eq!(r.remove_audio_source(1), None);
    assert_eq!(r.source_of(1), None);
}

#[test]
fn adding_twice_replaces_source_and_caches_key_twice() {
    let mut r = SourceRegistry::new();
    r.add_audio_source(5, 1);
    r.add_audio_source(5, 2);
    r.add_transform(5);
    assert_eq!(r.source_of(5), Some(2));
    assert_eq!(r.update_plan(), vec![(5, 2), (5, 2)]);
    assert_eq!(r.remove_audio_source(5), Some(2));
    // one cached key is left behind, but without a source it is not visited
    assert_eq!(r.update_plan(), vec![]);
    r.add_audio_source(5, 3);
    assert_eq!(r.update_plan(), vec![(5, 3), (5, 3)]);
}

#[test]
fn sources_without_transform_are_not_visited() {
    let mut r = SourceRegistry::new();
    r.add_audio_source(1, 10);
    r.add_audio_source(2, 20);
    assert_eq!(r.update_plan(), vec![]);
    assert!(!r.has_transform(2));
    r.add_transform(2);
    assert!(r.has_transform(2));
    assert_eq!(r.update_plan(), vec![(2, 20)]);
    // a transform without a source is not visited either
    r.add_transform(9);
    assert_eq!(r.update_plan(), vec![(2, 20)]);
}
