use traffic_sim::util::IdMap;

#[test]
fn insert_free_appends_to_an_empty_pool() {
    let mut m: IdMap<u32> = IdMap::new();
    assert_eq!(m.insert_free(10), 0);
    assert_eq!(m.insert_free(11), 1);
    assert_eq!(m.len(), 2);
    assert_eq!(m.get(0), Some(&10));
    assert_eq!(m.get(1), Some(&11));
}

#[test]
fn insert_free_reuses_the_slot_freed_last() {
    let mut m: IdMap<u32> = IdMap::new();
    for v in 0..4 {
        m.insert_free(v);
    }
    m.remove(1);
    m.remove(3);
    assert_eq!(m.insert_free(40), 3);
    assert_eq!(m.insert_free(41), 1);
    assert_eq!(m.insert_free(42), 4);
    assert_eq!(m.get(3), Some(&40));
    assert_eq!(m.get(1), Some(&41));
}

#[test]
fn insert_beyond_the_end_stacks_the_gap_in_ascending_order() {
    let mut m: IdMap<u32> = IdMap::new();
    m.insert(3, 30);
    assert_eq!(m.len(), 4);
    assert!(!m.has_key(0));
    assert!(!m.has_key(1));
    assert!(!m.has_key(2));
    assert!(m.has_key(3));
    // the gap was stacked 0, 1, 2: the top of the stack is 2
    assert_eq!(m.insert_free(2), 2);
    assert_eq!(m.insert_free(1), 1);
    assert_eq!(m.insert_free(0), 0);
    assert_eq!(m.insert_free(4), 4);
}

#[test]
fn insert_into_an_empty_slot_takes_it_off_the_stack() {
    let mut m: IdMap<u32> = IdMap::new();
    m.insert(3, 30);
    m.insert(1, 10);
    assert_eq!(m.get(1), Some(&10));
    // the stack was 0, 1, 2; taking 1 put the last entry in its place: 0, 2
    assert_eq!(m.insert_free(2), 2);
    assert_eq!(m.insert_free(0), 0);
    assert_eq!(m.insert_free(4), 4);
}

#[test]
fn remove_empties_the_slot() {
    let mut m: IdMap<u32> = IdMap::new();
    m.insert_free(5);
    m.remove(0);
    assert!(!m.has_key(0));
    assert_eq!(m.get(0), None);
    assert_eq!(m.len(), 1);
}

#[test]
fn removing_twice_frees_the_slot_once() {
    let mut m: IdMap<u32> = IdMap::new();
    m.insert_free(5);
    m.insert_free(6);
    m.remove(0);
    m.remove(0);
    m.remove(7);
    assert_eq!(m.insert_free(50), 0);
    assert_eq!(m.insert_free(51), 2);
    assert_eq!(m.get(1), Some(&6));
}

#[test]
fn get_beyond_the_end_finds_nothing() {
    let mut m: IdMap<u32> = IdMap::new();
    assert_eq!(m.get(0), None);
    assert!(m.get_mut(3).is_none());
    assert!(!m.has_key(3));
}

#[test]
fn get_mut_changes_the_element_in_place() {
    let mut m: IdMap<u32> = IdMap::new();
    m.insert_free(5);
    if let Some(e) = m.get_mut(0) {
        *e = 9;
    }
    assert_eq!(m.get(0), Some(&9));
}

#[test]
fn iter_visits_occupied_slots_in_index_order() {
    let mut m: IdMap<u32> = IdMap::new();
    m.insert(4, 40);
    m.insert(1, 10);
    m.insert(2, 20);
    let seen: Vec<u32> = m.iter().into_iter().map(|e| *e).collect();
    assert_eq!(seen, vec![10, 20, 40]);
    assert_eq!(m.iter_mut(), vec![1, 2, 4]);
}

#[test]
fn iter_mut_hands_out_the_ids_to_change_each_element() {
    let mut m: IdMap<u32> = IdMap::new();
    m.insert(2, 20);
    m.insert(0, 1);
    for id in m.iter_mut() {
        if let Some(e) = m.get_mut(id) {
            *e += 1;
        }
    }
    assert_eq!(m.get(0), Some(&2));
    assert_eq!(m.get(2), Some(&21));
    assert_eq!(m.get(1), None);
}

#[test]
fn remove_where_drains_what_the_predicate_accepts() {
    let mut m: IdMap<u32> = IdMap::new();
    for v in 0..6 {
        m.insert_free(v);
    }
    m.remove_where(|v| *v % 2 == 0);
    assert!(!m.has_key(0));
    assert!(m.has_key(1));
    assert!(!m.has_key(2));
    assert!(m.has_key(3));
    assert!(!m.has_key(4));
    assert!(m.has_key(5));
    // freed in index order 0, 2, 4: reused from the top
    assert_eq!(m.insert_free(7), 4);
    assert_eq!(m.insert_free(8), 2);
    assert_eq!(m.insert_free(9), 0);
    assert_eq!(m.insert_free(10), 6);
}
