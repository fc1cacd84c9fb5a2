use workbench::id::{IDError, IDManager, ID};

#[test]
pub fn default_constructor_works() {
    let _mnger = IDManager::default();
}

#[test]
pub fn unknown_get_id_returns_err() {
    let mnger = IDManager::default();
    assert!(mnger.get(ID(0, 0)).is_err());
    assert!(mnger.get(ID(1, 0)).is_err());
    assert!(mnger.get(ID(0, 1)).is_err());
    assert!(mnger.get(ID(1, 1)).is_err());
}

#[test]
pub fn new_ids_generated() {
    let mut mnger = IDManager::default();
    mnger.new(0);
    mnger.new(2);
    mnger.new(3);
    mnger.new(1);
    mnger.new(4);
    mnger.new(5);
}

#[test]
pub fn ids_can_be_removed() {
    let mut mnger = IDManager::default();
    let id = mnger.new(0);

    assert!(mnger.remove(id).is_ok());
}

#[test]
pub fn unknown_remove_id_returns_err() {
    let mut mnger = IDManager::default();

    assert!(mnger.remove(ID(0, 0)).is_err());
    assert!(mnger.remove(ID(1, 0)).is_err());
    assert!(mnger.remove(ID(0, 1)).is_err());
    assert!(mnger.remove(ID(20, 11)).is_err());
}

#[test]
pub fn removed_ids_invalid() {
    let mut mnger = IDManager::default();
    let id = mnger.new(0);

    let _ = mnger.remove(id).is_ok();
    assert!(!mnger.valid(id));
}

#[test]
pub fn unknown_ids_invalid() {
    let mnger = IDManager::default();

    assert!(!mnger.valid(ID(0, 0)));
    assert!(!mnger.valid(ID(1, 0)));
    assert!(!mnger.valid(ID(0, 1)));
    assert!(!mnger.valid(ID(20, 11)))
}

#[test]
pub fn new_ids_valid() {
    let mut mnger = IDManager::default();
    let id0 = mnger.new(0);
    let id2 = mnger.new(2);
    let id3 = mnger.new(3);
    let id1 = mnger.new(1);
    let id4 = mnger.new(4);
    let id5 = mnger.new(5);

    assert!(mnger.valid(id0));
    assert!(mnger.valid(id2));
    assert!(mnger.valid(id3));
    assert!(mnger.valid(id1));
    assert!(mnger.valid(id4));
    assert!(mnger.valid(id5));
}

#[test]
pub fn remove_doesnt_change_other_bindings() {
    let mut mnger = IDManager::default();
    let id0 = mnger.new(0);
    let id2 = mnger.new(2);
    let id3 = mnger.new(3);
    let id1 = mnger.new(1);
    let id4 = mnger.new(4);
    let id5 = mnger.new(5);

    let _ = mnger.remove(id0);
    assert_eq!(mnger.get(id2).ok(), Some(2));
    assert_eq!(mnger.get(id3).ok(), Some(3));
    assert_eq!(mnger.get(id1).ok(), Some(1));
    assert_eq!(mnger.get(id4).ok(), Some(4));
    assert_eq!(mnger.get(id5).ok(), Some(5));
}

#[test]
pub fn swap_remove_invalidates_ids() {
    let mut mnger = IDManager::default();
    let id0 = mnger.new(0);
    let id2 = mnger.new(2);

    let _ = mnger.swap_remove(id0, id2);
    assert!(!mnger.valid(id0));
}

#[test]
pub fn swap_remove_leaves_replacement_valid() {
    let mut mnger = IDManager::default();
    let id0 = mnger.new(0);
    let id2 = mnger.new(2);

    let _ = mnger.swap_remove(id0, id2);
    assert!(mnger.valid(id2));
}

#[test]
pub fn swap_remove_swaps_bindings() {
    let mut mnger = IDManager::default();
    let id0 = mnger.new(0);
    let id2 = mnger.new(2);
    let id3 = mnger.new(3);
    let _id1 = mnger.new(1);
    let _id4 = mnger.new(4);
    let id5 = mnger.new(5);

    let _ = mnger.swap_remove(id0, id2);
    let _ = mnger.swap_remove(id3, id5);
    assert_eq!(mnger.get(id2).ok(), Some(0));
    assert_eq!(mnger.get(id5).ok(), Some(3));
}

#[test]
pub fn swap_remove_doesnt_change_other_bindings() {
    let mut mnger = IDManager::default();
    let id0 = mnger.new(0);
    let id2 = mnger.new(2);
    let id3 = mnger.new(3);
    let id1 = mnger.new(1);
    let id4 = mnger.new(4);
    let id5 = mnger.new(5);

    let _ = mnger.swap_remove(id0, id2);
    assert_eq!(mnger.get(id3).ok(), Some(3));
    assert_eq!(mnger.get(id1).ok(), Some(1));
    assert_eq!(mnger.get(id4).ok(), Some(4));
    assert_eq!(mnger.get(id5).ok(), Some(5));
}

#[test]
pub fn insert_after_remove_works() {
    let mut mnger = IDManager::default();
    let id0 = mnger.new(0);
    let _id2 = mnger.new(2);
    let _id3 = mnger.new(3);
    let _id1 = mnger.new(1);
    let _id4 = mnger.new(4);
    let _id5 = mnger.new(5);

    let _ = mnger.remove(id0);
    let _id6 = mnger.new(6);
}

#[test]
pub fn insert_after_swap_remove_works() {
    let mut mnger = IDManager::default();
    let id0 = mnger.new(0);
    let id2 = mnger.new(2);
    let _id3 = mnger.new(3);
    let _id1 = mnger.new(1);
    let _id4 = mnger.new(4);
    let _id5 = mnger.new(5);

    let _ = mnger.swap_remove(id0, id2);
    let _id6 = mnger.new(6);
}

#[test]
pub fn inserts_after_remove_works() {
    let mut mnger = IDManager::default();
    let id0 = mnger.new(0);
    let _id2 = mnger.new(2);
    let _id3 = mnger.new(3);
    let _id1 = mnger.new(1);
    let _id4 = mnger.new(4);
    let _id5 = mnger.new(5);

    let _ = mnger.remove(id0);
    let _id6 = mnger.new(6);
    let _id7 = mnger.new(7);
}

fn insert_to_items(items: &mut Vec<char>, manager: &mut IDManager, character: char) -> (ID, char) {
    let len = items.len();
    items.push(character);
    let id = manager.new(len);
    (id, character)
}

#[test]
pub fn can_manage_references_to_mutable_list() {
    let mut mnger = IDManager::default();
    let mut items = Vec::new();
    let (id0, id0a) = insert_to_items(&mut items, &mut mnger, 'a');
    let (id1, id1b) = insert_to_items(&mut items, &mut mnger, 'b');
    let (id2, id2c) = insert_to_items(&mut items, &mut mnger, 'c');
    let (id3, id3d) = insert_to_items(&mut items, &mut mnger, 'd');

    assert_eq!(items[mnger.get(id0).unwrap()], id0a);
    assert_eq!(items[mnger.get(id1).unwrap()], id1b);
    assert_eq!(items[mnger.get(id2).unwrap()], id2c);
    assert_eq!(items[mnger.get(id3).unwrap()], id3d);

    items.remove(3);
    let _ = mnger.remove(id3);

    assert_eq!(items[mnger.get(id0).unwrap()], id0a);
    assert_eq!(items[mnger.get(id1).unwrap()], id1b);
    assert_eq!(items[mnger.get(id2).unwrap()], id2c);

    let (id3, id3d) = insert_to_items(&mut items, &mut mnger, 'd');

    assert_eq!(items[mnger.get(id0).unwrap()], id0a);
    assert_eq!(items[mnger.get(id1).unwrap()], id1b);
    assert_eq!(items[mnger.get(id2).unwrap()], id2c);
    assert_eq!(items[mnger.get(id3).unwrap()], id3d);

    items.swap_remove(3);
    let _ = mnger.remove(id3);

    assert_eq!(items[mnger.get(id0).unwrap()], id0a);
    assert_eq!(items[mnger.get(id1).unwrap()], id1b);
    assert_eq!(items[mnger.get(id2).unwrap()], id2c);

    let (id3, id3d) = insert_to_items(&mut items, &mut mnger, 'd');

    assert_eq!(items[mnger.get(id0).unwrap()], id0a);
    assert_eq!(items[mnger.get(id1).unwrap()], id1b);
    assert_eq!(items[mnger.get(id2).unwrap()], id2c);
    assert_eq!(items[mnger.get(id3).unwrap()], id3d);

    items.swap_remove(2);
    let _ = mnger.swap_remove(id2, id3);

    assert_eq!(items[mnger.get(id0).unwrap()], id0a);
    assert_eq!(items[mnger.get(id1).unwrap()], id1b);
    assert_eq!(items[mnger.get(id3).unwrap()], id3d);

    let (id2, id2c) = insert_to_items(&mut items, &mut mnger, 'c');

    assert_eq!(items[mnger.get(id0).unwrap()], id0a);
    assert_eq!(items[mnger.get(id1).unwrap()], id1b);
    assert_eq!(items[mnger.get(id2).unwrap()], id2c);
    assert_eq!(items[mnger.get(id3).unwrap()], id3d);

    let (id4, id4d) = insert_to_items(&mut items, &mut mnger, 'd');

    assert_eq!(items[mnger.get(id4).unwrap()], id4d);
}

#[test]
pub fn new_prefers_the_remembered_slot_then_the_lowest_empty_slot() {
    let mut mnger = IDManager::default();
    let a = mnger.new(10);
    let b = mnger.new(11);
    let c = mnger.new(12);
    assert_eq!((a, b, c), (ID(0, 0), ID(1, 0), ID(2, 0)));
    // Two removals: slot 2 is remembered, slot 0 is only counted as free.
    assert_eq!(mnger.remove(c), Ok(()));
    assert_eq!(mnger.remove(a), Ok(()));
    // The remembered slot comes first, with its bumped time stamp.
    assert_eq!(mnger.new(20), ID(2, 1));
    // Then the lowest unbound slot.
    assert_eq!(mnger.new(21), ID(0, 1));
    // Then the table grows.
    assert_eq!(mnger.new(22), ID(3, 0));
    assert_eq!(mnger.get(ID(0, 1)), Ok(21));
    assert_eq!(mnger.get(ID(2, 1)), Ok(20));
    assert_eq!(mnger.get(ID(3, 0)), Ok(22));
    assert_eq!(mnger.get(b), Ok(11));
}

#[test]
pub fn stale_ids_stay_stale_after_reuse() {
    let mut mnger = IDManager::default();
    let a = mnger.new(7);
    assert_eq!(mnger.remove(a), Ok(()));
    let reused = mnger.new(8);
    assert_eq!(reused, ID(0, 1));
    assert_ne!(reused, a);
    assert!(!mnger.valid(a));
    assert_eq!(mnger.get(a), Err(IDError::IDOutDated));
    assert_eq!(mnger.get(reused), Ok(8));
}

#[test]
pub fn every_error_has_an_input() {
    let mut mnger = IDManager::default();
    let a = mnger.new(1);
    let b = mnger.new(2);
    assert_eq!(mnger.get(ID(5, 0)), Err(IDError::IDOutOfRange));
    assert_eq!(mnger.remove(ID(5, 0)), Err(IDError::IDOutOfRange));
    assert_eq!(mnger.swap_remove(ID(5, 0), b), Err(IDError::IDOutOfRange));
    assert_eq!(mnger.swap_remove(a, ID(5, 0)), Err(IDError::IDOutOfRange));
    assert_eq!(mnger.get(ID(0, 3)), Err(IDError::IDOutDated));
    assert_eq!(mnger.remove(ID(0, 3)), Err(IDError::IDOutDated));
    assert_eq!(mnger.swap_remove(a, ID(1, 3)), Err(IDError::IDOutDated));
    assert_eq!(mnger.swap_remove(ID(0, 3), b), Err(IDError::IDOutDated));
    assert_eq!(mnger.remove(a), Ok(()));
    // A handle carrying the bumped time stamp of an unbound slot.
    assert_eq!(mnger.remove(ID(0, 1)), Err(IDError::IDDeleted));
    assert_eq!(mnger.swap_remove(ID(0, 1), b), Err(IDError::IDDeleted));
    assert_eq!(mnger.get(b), Ok(2));
}

#[test]
pub fn failed_operations_leave_bindings_alone() {
    let mut mnger = IDManager::default();
    let a = mnger.new(4);
    let b = mnger.new(5);
    assert!(mnger.remove(ID(0, 9)).is_err());
    assert!(mnger.swap_remove(ID(0, 9), b).is_err());
    assert_eq!(mnger.get(a), Ok(4));
    assert_eq!(mnger.get(b), Ok(5));
    assert!(mnger.valid(a) && mnger.valid(b));
}

#[test]
pub fn every_issued_id_is_new_and_valid_until_removed() {
    let mut mnger = IDManager::default();
    let keep = mnger.new(1000);
    let mut issued: Vec<ID> = vec![keep];
    let mut removed: Vec<ID> = Vec::new();
    for round in 0..5 {
        let a = mnger.new(round);
        assert!(!issued.contains(&a));
        issued.push(a);
        // Failed calls and calls on other handles leave `keep` valid.
        assert!(mnger.remove(ID(a.0, a.1 + 1)).is_err());
        assert_eq!(mnger.remove(a), Ok(()));
        removed.push(a);
        assert!(mnger.valid(keep));
        for id in &removed {
            assert!(!mnger.valid(*id));
        }
    }
    assert_eq!(mnger.remove(keep), Ok(()));
    assert!(!mnger.valid(keep));
}

#[test]
pub fn new_scans_past_a_bound_first_slot() {
    let mut m = IDManager::default();
    let a = m.new(0);
    let b = m.new(1);
    assert!(m.remove(a).is_ok());
    assert!(m.remove(b).is_ok());
    // The remembered free slot is slot 0.
    let c = m.new(2);
    assert_eq!(c, ID(0, 1));
    // No slot is remembered now, slot 0 is bound and slot 1 is free.
    let r = m.new(3);
    assert_eq!(r, ID(1, 1));
    assert!(m.valid(r));
    assert_eq!(m.get(r).ok(), Some(3));
    assert_ne!(r, b);
    assert_eq!(m.get(c).ok(), Some(2));
}

#[test]
pub fn swap_remove_reports_an_index_equal_to_the_table_size() {
    let mut m = IDManager::default();
    let a = m.new(0);
    assert_eq!(m.swap_remove(ID(1, 0), a), Err(IDError::IDOutOfRange));
    assert_eq!(m.swap_remove(a, ID(1, 0)), Err(IDError::IDOutOfRange));
    assert!(m.valid(a));
    assert_eq!(m.get(a).ok(), Some(0));
}
