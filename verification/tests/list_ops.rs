use slot_list::list::List;
use slot_list::list::ListError;
use slot_list::list::Slot;

fn backing(n: usize) -> Vec<Slot> {
    let mut v: Vec<Slot> = Vec::new();
    for _ in 0..n {
        v.push(Slot { value: None, next: None });
    }
    v
}

#[test]
fn fresh_list_is_empty() {
    let l = List::new(backing(3));
    assert_eq!(l.to_vec(), Vec::<i64>::new());
    assert_eq!(l.head, None);
    assert_eq!(l.free_head, Some(0));
}

#[test]
fn fresh_free_chain_is_consecutive() {
    let l = List::new(backing(4));
    assert_eq!(l.slots[0].next, Some(1));
    assert_eq!(l.slots[1].next, Some(2));
    assert_eq!(l.slots[2].next, Some(3));
    assert_eq!(l.slots[3].next, None);
}

#[test]
fn zero_capacity_list() {
    let mut l = List::new(backing(0));
    assert_eq!(l.free_head, None);
    assert_eq!(l.pop_front(), Err(ListError::EmptyList));
    assert_eq!(l.push_front(1), Err(ListError::Exhaustion));
    assert_eq!(l.insert_sorted(1), Err(ListError::Exhaustion));
}

#[test]
fn pop_on_fresh_list_is_empty_error() {
    let mut l = List::new(backing(3));
    assert_eq!(l.pop_front(), Err(ListError::EmptyList));
}

#[test]
fn push_then_pop_returns_value() {
    let mut l = List::new(backing(2));
    assert_eq!(l.push_front(7), Ok(()));
    assert_eq!(l.pop_front(), Ok(7));
}

#[test]
fn push_pop_restores_structural_state() {
    let mut l = List::new(backing(3));
    l.push_front(10).unwrap();
    let head_before = l.head;
    let free_before = l.free_head;
    let next_before: Vec<Option<u8>> = l.slots.iter().map(|s| s.next).collect();
    let vals_before = l.to_vec();
    l.push_front(42).unwrap();
    assert_eq!(l.pop_front(), Ok(42));
    let next_after: Vec<Option<u8>> = l.slots.iter().map(|s| s.next).collect();
    assert_eq!(l.head, head_before);
    assert_eq!(l.free_head, free_before);
    assert_eq!(next_after, next_before);
    assert_eq!(l.to_vec(), vals_before);
}

#[test]
fn push_front_is_lifo() {
    let mut l = List::new(backing(3));
    l.push_front(1).unwrap();
    l.push_front(2).unwrap();
    l.push_front(3).unwrap();
    assert_eq!(l.to_vec(), vec![3, 2, 1]);
}

#[test]
fn exhaustion_boundary_leaves_state_unchanged() {
    let mut l = List::new(backing(3));
    assert_eq!(l.push_front(1), Ok(()));
    assert_eq!(l.push_front(2), Ok(()));
    assert_eq!(l.push_front(3), Ok(()));
    let head_before = l.head;
    let free_before = l.free_head;
    let next_before: Vec<Option<u8>> = l.slots.iter().map(|s| s.next).collect();
    let vals_before = l.to_vec();
    assert_eq!(l.push_front(4), Err(ListError::Exhaustion));
    let next_after: Vec<Option<u8>> = l.slots.iter().map(|s| s.next).collect();
    assert_eq!(l.head, head_before);
    assert_eq!(l.free_head, free_before);
    assert_eq!(next_after, next_before);
    assert_eq!(l.to_vec(), vals_before);
}

#[test]
fn full_capacity_round() {
    let mut l = List::new(backing(255));
    for i in 0..255 {
        assert_eq!(l.push_front(i as i64), Ok(()));
    }
    assert_eq!(l.push_front(255), Err(ListError::Exhaustion));
    assert_eq!(l.insert_sorted(255), Err(ListError::Exhaustion));
    for i in (0..255).rev() {
        assert_eq!(l.pop_front(), Ok(i as i64));
    }
    assert_eq!(l.pop_front(), Err(ListError::EmptyList));
}

#[test]
fn scenario_sorted_inserts() {
    let mut l = List::new(backing(3));
    assert_eq!(l.insert_sorted(1), Ok(()));
    assert_eq!(l.to_vec(), vec![1]);
    assert_eq!(l.insert_sorted(3), Ok(()));
    assert_eq!(l.to_vec(), vec![1, 3]);
    assert_eq!(l.insert_sorted(2), Ok(()));
    assert_eq!(l.to_vec(), vec![1, 2, 3]);
    assert_eq!(l.insert_sorted(0), Err(ListError::Exhaustion));
    assert_eq!(l.insert_sorted(9), Err(ListError::Exhaustion));
    assert_eq!(l.to_vec(), vec![1, 2, 3]);
}

#[test]
fn scenario_mixed_operations() {
    let mut l = List::new(backing(4));
    l.push_front(1).unwrap();
    l.push_front(2).unwrap();
    l.push_front(3).unwrap();
    assert_eq!(l.to_vec(), vec![3, 2, 1]);
    assert_eq!(l.pop_front(), Ok(3));
    assert_eq!(l.to_vec(), vec![2, 1]);
    l.push_front(5).unwrap();
    assert_eq!(l.to_vec(), vec![5, 2, 1]);
    assert_eq!(l.pop_front(), Ok(5));
    assert_eq!(l.pop_front(), Ok(2));
    assert_eq!(l.pop_front(), Ok(1));
    assert_eq!(l.pop_front(), Err(ListError::EmptyList));
}

#[test]
fn sorted_inserts_stay_nondecreasing() {
    let mut l = List::new(backing(6));
    for v in [5, 1, 4, 2, 2, -3] {
        l.insert_sorted(v).unwrap();
        let vals = l.to_vec();
        for w in vals.windows(2) {
            assert!(w[0] <= w[1]);
        }
    }
    assert_eq!(l.to_vec(), vec![-3, 1, 2, 2, 4, 5]);
}

#[test]
fn equal_values_new_one_lands_first() {
    let mut l = List::new(backing(2));
    l.insert_sorted(5).unwrap();
    l.insert_sorted(5).unwrap();
    // The first insert took slot 0, the second slot 1; the stopping rule
    // places the newer equal value in front of the older one.
    assert_eq!(l.head, Some(1));
    assert_eq!(l.slots[1].next, Some(0));
    assert_eq!(l.slots[0].next, None);
}

#[test]
fn partition_of_indices_holds() {
    let mut l = List::new(backing(5));
    l.push_front(1).unwrap();
    l.insert_sorted(0).unwrap();
    l.push_front(2).unwrap();
    l.pop_front().unwrap();
    let mut seen = vec![0u32; 5];
    let mut cur = l.head;
    while let Some(i) = cur {
        seen[i as usize] += 1;
        cur = l.slots[i as usize].next;
    }
    let mut cur = l.free_head;
    while let Some(i) = cur {
        seen[i as usize] += 1;
        cur = l.slots[i as usize].next;
    }
    assert_eq!(seen, vec![1, 1, 1, 1, 1]);
}

#[test]
fn allocate_and_free_round_trip() {
    let mut l = List::new(backing(2));
    assert_eq!(l.allocate(), Ok(0));
    assert_eq!(l.free_head, Some(1));
    l.free(0);
    assert_eq!(l.free_head, Some(0));
    assert_eq!(l.slots[0].next, Some(1));
    let mut m = List::new(backing(0));
    assert_eq!(m.allocate(), Err(ListError::Exhaustion));
}
