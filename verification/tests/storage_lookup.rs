use kudo::{Filter, FilterType, StorageLookup};

fn with(type_id: u64) -> Filter {
    Filter { filter_type: FilterType::With, type_id }
}

fn without(type_id: u64) -> Filter {
    Filter { filter_type: FilterType::Without, type_id }
}

#[test]
fn matching_with_and_without() {
    let mut lookup = StorageLookup::new();
    lookup.new_archetype(0, &[1, 2]);
    lookup.new_archetype(1, &[1, 2, 3]);
    let r = lookup.get_matching_archetypes(&[with(1)], &[without(3)]);
    assert_eq!(r.len(), 1);
    assert_eq!(r[0].archetype_index, 0);
    assert_eq!(r[0].channels, vec![Some(0)]);
}

#[test]
fn matching_channels_of_requirements() {
    let mut lookup = StorageLookup::new();
    lookup.new_archetype(0, &[1]);
    lookup.new_archetype(1, &[1, 2]);
    lookup.new_archetype(2, &[2]);
    let r = lookup.get_matching_archetypes(&[with(1), with(2)], &[]);
    assert_eq!(r.len(), 1);
    assert_eq!(r[0].archetype_index, 1);
    assert_eq!(r[0].channels, vec![Some(0), Some(1)]);
}

#[test]
fn matching_with_repeated_type_list() {
    let mut lookup = StorageLookup::new();
    lookup.new_archetype(0, &[1]);
    lookup.new_archetype(1, &[1, 2]);
    lookup.new_archetype(2, &[2]);
    lookup.new_archetype(3, &[1]);
    let r = lookup.get_matching_archetypes(&[with(1), with(2)], &[]);
    assert_eq!(r.len(), 1);
    assert_eq!(r[0].archetype_index, 1);
    assert_eq!(r[0].channels, vec![Some(0), Some(1)]);
    let r = lookup.get_matching_archetypes(&[with(1)], &[]);
    let found: Vec<usize> = r.iter().map(|m| m.archetype_index).collect();
    assert_eq!(found, vec![0, 1, 3]);
    assert_eq!(lookup.get_archetype_with_components(&[1]), Some(0));
}

#[test]
fn declaring_an_archetype_adds_its_match_last() {
    let mut lookup = StorageLookup::new();
    lookup.new_archetype(0, &[1]);
    lookup.new_archetype(1, &[1, 2]);
    let before = lookup.get_matching_archetypes(&[with(2)], &[]);
    assert_eq!(before.len(), 1);
    lookup.new_archetype(2, &[2, 3]);
    let after = lookup.get_matching_archetypes(&[with(2)], &[]);
    assert_eq!(after.len(), 2);
    assert_eq!(after[0].archetype_index, 1);
    assert_eq!(after[0].channels, vec![Some(1)]);
    assert_eq!(after[1].archetype_index, 2);
    assert_eq!(after[1].channels, vec![Some(0)]);
}
