use slot_list::list::List;
use slot_list::list::Slot;

fn backing(n: usize) -> Vec<Slot> {
    let mut v: Vec<Slot> = Vec::new();
    for _ in 0..n {
        v.push(Slot { value: None, next: None });
    }
    v
}

#[test]
fn render_empty_list() {
    let l = List::new(backing(3));
    assert_eq!(l.render(), "List :");
}

#[test]
fn render_values_in_chain_order() {
    let mut l = List::new(backing(3));
    l.insert_sorted(2).unwrap();
    l.insert_sorted(3).unwrap();
    l.insert_sorted(1).unwrap();
    assert_eq!(l.render(), "List :1, 2, 3, ");
}

#[test]
fn render_negative_and_large_values() {
    let mut l = List::new(backing(3));
    l.push_front(i64::MAX).unwrap();
    l.push_front(-5).unwrap();
    l.push_front(0).unwrap();
    assert_eq!(l.render(), "List :0, -5, 9223372036854775807, ");
}
