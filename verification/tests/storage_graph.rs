use kudo::{Requirement, RequirementType, StorageGraph, StorageMatch};

fn insert_archetype(storage_graph: &mut StorageGraph, ids: &[u64], storage_index: usize) {
    let insert_handle = match storage_graph.find_storage(ids) {
        Ok(_) => panic!("storage already present"),
        Err(handle) => handle,
    };
    storage_graph.insert_storage(insert_handle, storage_index);
}

fn without(original_index: usize, type_id: u64) -> Requirement {
    Requirement { type_id, requirement_type: RequirementType::Without, original_index }
}

fn storages(matches: &[StorageMatch]) -> Vec<usize> {
    matches.iter().map(|m| m.storage).collect()
}

#[test]
fn storage_graph() {
    let mut storage_graph = StorageGraph::new();
    insert_archetype(&mut storage_graph, &[0, 1, 2], 0);
    insert_archetype(&mut storage_graph, &[1, 2], 1);

    let ids = [Requirement::with_(0, 1), Requirement::with_(1, 2)];
    let matching = storage_graph.iterate_matching_storage(&ids);
    let found = storages(&matching);
    assert!(found.contains(&0));
    assert!(found.contains(&1));
    assert_eq!(found.len(), 2);
}

#[test]
fn storage_graph_channels() {
    let mut storage_graph = StorageGraph::new();
    insert_archetype(&mut storage_graph, &[0, 1, 2], 0);
    insert_archetype(&mut storage_graph, &[1, 2], 1);

    let ids = [Requirement::with_(0, 1), Requirement::with_(1, 2)];
    let matching = storage_graph.iterate_matching_storage(&ids);
    for m in matching.iter() {
        if m.storage == 0 {
            assert_eq!(m.channels, vec![1, 2]);
        } else {
            assert_eq!(m.channels, vec![0, 1]);
        }
    }
}

#[test]
fn storage_graph_without0() {
    let mut storage_graph = StorageGraph::new();
    insert_archetype(&mut storage_graph, &[0, 1, 2], 0);
    insert_archetype(&mut storage_graph, &[1, 2], 1);

    let ids = [without(0, 0), Requirement::with_(1, 2)];
    let found = storages(&storage_graph.iterate_matching_storage(&ids));
    assert!(!found.contains(&0));
    assert!(found.contains(&1));
}

#[test]
fn storage_graph_without1() {
    let mut storage_graph = StorageGraph::new();
    insert_archetype(&mut storage_graph, &[0, 1, 2, 3, 4], 0);
    insert_archetype(&mut storage_graph, &[0, 1, 2, 4], 1);

    let ids = [Requirement::with_(0, 2), without(1, 3)];
    let found = storages(&storage_graph.iterate_matching_storage(&ids));
    assert!(!found.contains(&0));
    assert!(found.contains(&1));
}

#[test]
fn storage_graph_without_at_the_end() {
    // A storage whose types all lie below the excluded type still matches.
    let mut storage_graph = StorageGraph::new();
    insert_archetype(&mut storage_graph, &[1, 2], 0);
    insert_archetype(&mut storage_graph, &[1, 2, 3], 1);

    let ids = [Requirement::with_(0, 2), without(1, 3)];
    let found = storages(&storage_graph.iterate_matching_storage(&ids));
    assert_eq!(found, vec![0]);
}

#[test]
fn storage_graph_empty_requirements_match_everything() {
    let mut storage_graph = StorageGraph::new();
    insert_archetype(&mut storage_graph, &[], 0);
    insert_archetype(&mut storage_graph, &[5], 1);
    insert_archetype(&mut storage_graph, &[3, 5], 2);

    let mut found = storages(&storage_graph.iterate_matching_storage(&[]));
    found.sort();
    assert_eq!(found, vec![0, 1, 2]);
}

#[test]
fn storage_graph_find_after_insert() {
    let mut storage_graph = StorageGraph::new();
    assert!(storage_graph.find_storage(&[1, 2]).is_err());
    insert_archetype(&mut storage_graph, &[1, 2], 7);
    assert_eq!(storage_graph.find_storage(&[1, 2]).ok(), Some(7));
    // a prefix of a stored path is not stored itself
    assert!(storage_graph.find_storage(&[1]).is_err());
    insert_archetype(&mut storage_graph, &[1], 3);
    assert_eq!(storage_graph.find_storage(&[1]).ok(), Some(3));
    assert_eq!(storage_graph.find_storage(&[1, 2]).ok(), Some(7));
    assert!(storage_graph.find_storage(&[2]).is_err());
}

#[test]
fn storage_graph_insert_between_edges() {
    let mut storage_graph = StorageGraph::new();
    insert_archetype(&mut storage_graph, &[1], 0);
    insert_archetype(&mut storage_graph, &[5], 1);
    insert_archetype(&mut storage_graph, &[3], 2);
    assert_eq!(storage_graph.find_storage(&[1]).ok(), Some(0));
    assert_eq!(storage_graph.find_storage(&[3]).ok(), Some(2));
    assert_eq!(storage_graph.find_storage(&[5]).ok(), Some(1));

    let ids = [Requirement::with_(0, 3)];
    assert_eq!(storages(&storage_graph.iterate_matching_storage(&ids)), vec![2]);
}
