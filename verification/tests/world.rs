use audioverse_core::world::{link_parents, load_world, EntityIdMap, ParentLink};

fn s(x: &str) -> String {
    x.to_string()
}

#[test]
fn later_insert_replaces_earlier() {
    let mut m = EntityIdMap::new();
    m.insert(s("room"), 1);
    m.insert(s("ocean"), 2);
    m.insert(s("room"), 3);
    assert_eq!(m.len(), 2);
    assert_eq!(m.get(&s("room")), Some(3));
    assert_eq!(m.get(&s("ocean")), Some(2));
    assert_eq!(m.get(&s("door")), None);
}

#[test]
fn parents_are_linked_in_description_order() {
    let mut m = EntityIdMap::new();
    m.insert(s("house_1"), 10);
    m.insert(s("living_room"), 11);
    m.insert(s("window_portal"), 12);
    m.insert(s("shed"), 13);
    let defs = vec![
        (s("house_1"), None),
        (s("living_room"), Some(s("house_1"))),
        (s("window_portal"), Some(s("house_1"))),
        (s("shed"), Some(s("garden"))),
    ];
    let links = link_parents(&m, &defs);
    assert_eq!(
        links,
        vec![
            ParentLink::Attach { child: 11, parent: 10 },
            ParentLink::Attach { child: 12, parent: 10 },
            ParentLink::MissingParent { index: 3 },
        ]
    );
}

#[test]
fn duplicated_id_links_its_latest_entity() {
    let mut m = EntityIdMap::new();
    m.insert(s("a"), 1);
    m.insert(s("b"), 2);
    m.insert(s("b"), 3);
    let defs = vec![(s("a"), None), (s("b"), Some(s("a"))), (s("b"), Some(s("a")))];
    let links = link_parents(&m, &defs);
    assert_eq!(links, vec![ParentLink::Attach { child: 3, parent: 1 }, ParentLink::Attach { child: 3, parent: 1 }]);
}

#[test]
fn whole_load_maps_every_id_and_links_known_parents() {
    let mut m = EntityIdMap::new();
    m.insert(s("sky"), 1);
    let defs = vec![
        (s("player_spawn"), None),
        (s("house_1"), None),
        (s("living_room"), Some(s("house_1"))),
        (s("window_portal"), Some(s("house_1"))),
        (s("shed"), Some(s("garden"))),
        (s("cloud"), Some(s("sky"))),
    ];
    let entities = vec![20, 21, 22, 23, 24, 25];
    let links = load_world(&mut m, &defs, &entities);
    for (i, (id, _)) in defs.iter().enumerate() {
        assert_eq!(m.get(id), Some(entities[i]));
    }
    assert_eq!(m.get(&s("sky")), Some(1));
    assert_eq!(m.len(), 7);
    assert_eq!(
        links,
        vec![
            ParentLink::Attach { child: 22, parent: 21 },
            ParentLink::Attach { child: 23, parent: 21 },
            ParentLink::MissingParent { index: 4 },
            ParentLink::Attach { child: 25, parent: 1 },
        ]
    );
}
