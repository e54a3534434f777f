use tracktorio::ids::{Id, IdGen};
use tracktorio::resources::{Resource, Resources};

#[test]
fn new_registry_is_empty() {
    let resources = Resources::new();
    assert!(resources.items.is_empty());
    assert_eq!(resources.find(&"ore".to_string()), None);
}

#[test]
fn first_occurrence_of_a_name_allocates() {
    let mut id_gen = IdGen::new();
    id_gen.gen();
    let mut resources = Resources::new();
    let ore = resources.intern(&mut id_gen, &"ore".to_string());
    assert_eq!(ore, Id(1));
    assert_eq!(id_gen.next, 2);
    assert_eq!(resources.items, vec![Resource { id: Id(1), name: "ore".to_string() }]);
}

#[test]
fn later_occurrences_keep_the_identifier() {
    let mut id_gen = IdGen::new();
    let mut resources = Resources::new();
    let ore = resources.intern(&mut id_gen, &"ore".to_string());
    let metal = resources.intern(&mut id_gen, &"metal".to_string());
    let before = resources.clone();
    assert_eq!(resources.intern(&mut id_gen, &"ore".to_string()), ore);
    assert_eq!(resources.intern(&mut id_gen, &"metal".to_string()), metal);
    assert_eq!(resources, before);
    assert_eq!(id_gen.next, 2);
}

#[test]
fn names_and_identifiers_map_one_to_one() {
    let mut id_gen = IdGen::new();
    let mut resources = Resources::new();
    let names = ["ore", "metal", "coal", "ore", "Ore", "", "coal", "metal "];
    let mut ids = Vec::new();
    for name in names {
        ids.push(resources.intern(&mut id_gen, &name.to_string()));
    }
    for i in 0..names.len() {
        for j in 0..names.len() {
            assert_eq!(names[i] == names[j], ids[i] == ids[j]);
        }
    }
    assert_eq!(resources.items.len(), 6);
    assert_eq!(id_gen.next, 6);
}

#[test]
fn find_gives_the_identifier_of_a_name() {
    let mut id_gen = IdGen::new();
    let mut resources = Resources::new();
    let ore = resources.intern(&mut id_gen, &"ore".to_string());
    let metal = resources.intern(&mut id_gen, &"metal".to_string());
    assert_eq!(resources.find(&"ore".to_string()), Some(ore));
    assert_eq!(resources.find(&"metal".to_string()), Some(metal));
    assert_eq!(resources.find(&"coal".to_string()), None);
}
