use stack_object::containers::PlacementError;
use stack_object::copying::Native;
use stack_object::object::{Handle, StackObject};
use stack_object::store::{Heap, Kind};

fn num(x: i64) -> StackObject {
    StackObject::Integer(x)
}

fn text(heap: &mut Heap, s: &str) -> StackObject {
    StackObject::make_from(Native::Text(s.to_string()), heap)
}

fn map_handle(v: &mut StackObject) -> Handle {
    v.as_map_rc().unwrap()
}

fn list_handle(v: &mut StackObject) -> Handle {
    v.as_vector_rc().unwrap()
}

#[test]
fn equal_to_itself_and_either_way_round() {
    let mut heap = Heap::new();
    let a = StackObject::make_from(Native::List(vec![num(1), num(2)]), &mut heap);
    let b = StackObject::make_from(Native::List(vec![num(1), num(2)]), &mut heap);
    let c = StackObject::make_from(Native::List(vec![num(1), num(3)]), &mut heap);
    assert!(a.equals(&a, &heap));
    assert!(a.equals(&b, &heap));
    assert!(b.equals(&a, &heap));
    assert!(!a.equals(&c, &heap));
    assert!(!c.equals(&a, &heap));
    assert!(num(5).equals(&num(5), &heap));
    assert!(!num(5).equals(&num(6), &heap));
}

#[test]
fn different_variants_are_unequal() {
    let mut heap = Heap::new();
    assert!(!num(1).equals(&StackObject::Boolean(true), &heap));
    assert!(!StackObject::Boolean(true).equals(&num(1), &heap));
    let t = text(&mut heap, "");
    let l = StackObject::make(Kind::List, &mut heap);
    let m = StackObject::make(Kind::Dict, &mut heap);
    assert!(!t.equals(&l, &heap));
    assert!(!l.equals(&m, &heap));
    assert!(!m.equals(&num(0), &heap));
}

#[test]
fn insert_through_one_value_shows_through_its_alias() {
    let mut heap = Heap::new();
    let mut m = StackObject::make(Kind::Dict, &mut heap);
    let mut m2 = m.ref_clone();
    let h = map_handle(&mut m);
    let prev = heap.map_insert(&h, num(1), num(8));
    assert!(matches!(prev, Ok(None)));
    let h2 = map_handle(&mut m2);
    let found = heap.map_get(&h2, &num(1)).unwrap();
    assert_eq!(found.as_int(), Some(8));
    assert!(heap.map_get(&h2, &num(2)).is_none());
}

#[test]
fn deep_copy_does_not_see_later_writes() {
    let mut heap = Heap::new();
    let mut l = StackObject::make_from(Native::List(vec![num(1)]), &mut heap);
    let mut l2 = l.deep_clone(&mut heap);
    let h = list_handle(&mut l);
    assert_eq!(heap.list_push(&h, num(2)), Ok(()));
    let h2 = list_handle(&mut l2);
    assert_eq!(heap.list_len(&h), 2);
    assert_eq!(heap.list_len(&h2), 1);
    assert_eq!(heap.list_get(&h2, 0).unwrap().as_int(), Some(1));
    assert!(heap.list_get(&h2, 1).is_none());
    let only_one = StackObject::make_from(Native::List(vec![num(1)]), &mut heap);
    assert!(l2.equals(&only_one, &heap));
    assert!(!l.equals(&l2, &heap));
}

#[test]
fn original_does_not_see_writes_to_the_copy() {
    let mut heap = Heap::new();
    let mut l = StackObject::make_from(Native::List(vec![num(1)]), &mut heap);
    let mut l2 = l.deep_clone(&mut heap);
    let h2 = list_handle(&mut l2);
    assert_eq!(heap.list_push(&h2, num(2)), Ok(()));
    let h = list_handle(&mut l);
    assert_eq!(heap.list_len(&h), 1);
    assert_eq!(heap.list_len(&h2), 2);
}

#[test]
fn deep_copy_copies_what_lies_under_it() {
    let mut heap = Heap::new();
    let mut inner = StackObject::make_from(Native::List(vec![num(1)]), &mut heap);
    let outer = StackObject::make_from(Native::List(vec![inner.ref_clone()]), &mut heap);
    let copy = outer.deep_clone(&mut heap);
    assert!(copy.equals(&outer, &heap));
    let hi = list_handle(&mut inner);
    assert_eq!(heap.list_push(&hi, num(2)), Ok(()));
    assert!(!copy.equals(&outer, &heap));
    let mut c = copy.ref_clone();
    let hc = list_handle(&mut c);
    let mut inner_copy = heap.list_get(&hc, 0).unwrap();
    let hic = list_handle(&mut inner_copy);
    assert_ne!(hic.slot, hi.slot);
    assert_eq!(heap.list_len(&hic), 1);
    assert_eq!(heap.list_len(&hi), 2);
}

#[test]
fn deep_copy_of_a_primitive_is_the_primitive() {
    let mut heap = Heap::new();
    let a = num(-4).deep_clone(&mut heap);
    let b = StackObject::Boolean(true).deep_clone(&mut heap);
    assert_eq!(a.as_int(), Some(-4));
    assert_eq!(b.as_bool(), Some(true));
    assert_eq!(heap.len(), 0);
}

#[test]
fn deep_copy_of_a_text_and_a_map() {
    let mut heap = Heap::new();
    let mut t = text(&mut heap, "ab");
    let mut t2 = t.deep_clone(&mut heap);
    let ht = t.as_string_rc().unwrap();
    heap.text_append(&ht, "c");
    let ht2 = t2.as_string_rc().unwrap();
    assert_eq!(heap.text_get(&ht), "abc");
    assert_eq!(heap.text_get(&ht2), "ab");
    let key = text(&mut heap, "k");
    let m = StackObject::make_from(Native::Dict(vec![(key, num(3))]), &mut heap);
    let mut m2 = m.deep_clone(&mut heap);
    assert!(m.equals(&m2, &heap));
    let h2 = map_handle(&mut m2);
    let probe = text(&mut heap, "k");
    assert_eq!(heap.map_get(&h2, &probe).unwrap().as_int(), Some(3));
}

#[test]
fn maps_made_apart_with_the_same_entries_are_equal() {
    let mut heap = Heap::new();
    let mut a = StackObject::make(Kind::Dict, &mut heap);
    let mut b = StackObject::make(Kind::Dict, &mut heap);
    let ha = map_handle(&mut a);
    let hb = map_handle(&mut b);
    assert_ne!(ha.slot, hb.slot);
    assert!(heap.map_insert(&ha, num(1), num(8)).is_ok());
    assert!(!a.equals(&b, &heap));
    assert!(heap.map_insert(&hb, num(1), num(8)).is_ok());
    assert!(a.equals(&b, &heap));
    assert!(b.equals(&a, &heap));
}

#[test]
fn maps_are_compared_without_regard_to_order() {
    let mut heap = Heap::new();
    let a = StackObject::make_from(
        Native::Dict(vec![(num(1), num(10)), (num(2), num(20))]),
        &mut heap,
    );
    let b = StackObject::make_from(
        Native::Dict(vec![(num(2), num(20)), (num(1), num(10))]),
        &mut heap,
    );
    let c = StackObject::make_from(
        Native::Dict(vec![(num(2), num(20)), (num(1), num(11))]),
        &mut heap,
    );
    let d = StackObject::make_from(Native::Dict(vec![(num(1), num(10))]), &mut heap);
    assert!(a.equals(&b, &heap));
    assert!(!a.equals(&c, &heap));
    assert!(!a.equals(&d, &heap));
    assert!(!d.equals(&a, &heap));
}

#[test]
fn a_list_is_no_key_but_can_be_made_and_compared() {
    let mut heap = Heap::new();
    let k1 = StackObject::make_from(Native::List(vec![num(1)]), &mut heap);
    let k2 = StackObject::make_from(Native::List(vec![num(1)]), &mut heap);
    assert!(!k1.can_hash());
    assert!(k1.equals(&k2, &heap));
    let a = StackObject::make_from(Native::Dict(vec![(num(0), k1)]), &mut heap);
    let b = StackObject::make_from(Native::Dict(vec![(num(0), k2)]), &mut heap);
    assert!(a.equals(&b, &heap));
    assert!(a.equals(&a, &heap));
}

#[test]
fn alias_then_insert_then_read_then_compare() {
    let mut heap = Heap::new();
    let mut m = StackObject::make(Kind::Dict, &mut heap);
    let mut m2 = m.ref_clone();
    let h = map_handle(&mut m);
    assert!(heap.map_insert(&h, num(1), num(8)).is_ok());
    let h2 = map_handle(&mut m2);
    assert_eq!(heap.map_get(&h2, &num(1)).unwrap().as_int(), Some(8));
    assert!(m.equals(&m2, &heap));
    let mut third = StackObject::make(Kind::Dict, &mut heap);
    let h3 = map_handle(&mut third);
    assert!(heap.map_insert(&h3, num(1), num(8)).is_ok());
    assert_ne!(h3.slot, h.slot);
    assert!(third.equals(&m, &heap));
    assert!(m.equals(&third, &heap));
    assert!(m.equals(&m2, &heap));
}

#[test]
fn insert_replaces_the_value_of_a_key() {
    let mut heap = Heap::new();
    let mut m = StackObject::make(Kind::Dict, &mut heap);
    let h = map_handle(&mut m);
    assert!(matches!(heap.map_insert(&h, num(1), num(8)), Ok(None)));
    let prev = heap.map_insert(&h, num(1), num(9)).unwrap().unwrap();
    assert_eq!(prev.as_int(), Some(8));
    assert_eq!(heap.map_len(&h), 1);
    assert_eq!(heap.map_get(&h, &num(1)).unwrap().as_int(), Some(9));
    assert!(matches!(heap.map_insert(&h, StackObject::Boolean(true), num(0)), Ok(None)));
    assert_eq!(heap.map_len(&h), 2);
}

#[test]
fn text_keys_are_found_by_their_characters() {
    let mut heap = Heap::new();
    let k = text(&mut heap, "name");
    let probe = text(&mut heap, "name");
    let other = text(&mut heap, "nam");
    let mut m = StackObject::make(Kind::Dict, &mut heap);
    let h = map_handle(&mut m);
    assert!(heap.map_insert(&h, k, num(1)).is_ok());
    assert_eq!(heap.map_get(&h, &probe).unwrap().as_int(), Some(1));
    assert!(heap.map_get(&h, &other).is_none());
}

#[test]
fn a_container_takes_values_made_after_it() {
    let mut heap = Heap::new();
    let mut l = StackObject::make(Kind::List, &mut heap);
    let mut m = StackObject::make(Kind::Dict, &mut heap);
    let young = text(&mut heap, "x");
    let mut inner = StackObject::make_from(Native::List(vec![num(7)]), &mut heap);
    let hl = list_handle(&mut l);
    let hm = map_handle(&mut m);
    assert_eq!(heap.list_push(&hl, young.ref_clone()), Ok(()));
    assert_eq!(heap.list_push(&hl, inner.ref_clone()), Ok(()));
    assert_eq!(heap.list_len(&hl), 2);
    assert!(matches!(heap.map_insert(&hm, young.ref_clone(), inner.ref_clone()), Ok(None)));
    assert!(matches!(heap.map_insert(&hm, num(1), l.ref_clone()), Ok(None)));
    assert_eq!(heap.map_len(&hm), 2);
    let probe = text(&mut heap, "x");
    let mut found = heap.map_get(&hm, &probe).unwrap();
    let hf = list_handle(&mut found);
    let hi = list_handle(&mut inner);
    assert_eq!(hf.slot, hi.slot);
    assert_eq!(heap.list_push(&hi, num(8)), Ok(()));
    assert_eq!(heap.list_len(&hf), 2);
    let mut second = heap.list_get(&hl, 1).unwrap();
    assert_eq!(heap.list_len(&list_handle(&mut second)), 2);
}

#[test]
fn a_write_that_would_close_a_cycle_is_refused() {
    let mut heap = Heap::new();
    let mut l = StackObject::make(Kind::List, &mut heap);
    let mut m = StackObject::make(Kind::Dict, &mut heap);
    let mut outer = StackObject::make(Kind::List, &mut heap);
    let hl = list_handle(&mut l);
    let hm = map_handle(&mut m);
    let ho = list_handle(&mut outer);
    assert_eq!(heap.list_push(&hl, l.ref_clone()), Err(PlacementError::Cycle));
    assert_eq!(heap.list_len(&hl), 0);
    assert!(matches!(heap.map_insert(&hm, num(1), m.ref_clone()), Err(PlacementError::Cycle)));
    assert_eq!(heap.map_len(&hm), 0);
    assert!(matches!(heap.map_insert(&hm, num(1), l.ref_clone()), Ok(None)));
    assert_eq!(heap.list_push(&ho, m.ref_clone()), Ok(()));
    assert_eq!(heap.list_push(&hl, outer.ref_clone()), Err(PlacementError::Cycle));
    assert_eq!(heap.list_push(&hl, m.ref_clone()), Err(PlacementError::Cycle));
    assert_eq!(heap.list_len(&hl), 0);
    assert!(matches!(heap.map_insert(&hm, num(1), outer.ref_clone()), Err(PlacementError::Cycle)));
    assert_eq!(heap.map_get(&hm, &num(1)).unwrap().as_vector_rc().unwrap().slot, hl.slot);
    assert!(l.can_reach(hl.slot, &heap));
    assert!(outer.can_reach(hl.slot, &heap));
    assert!(!l.can_reach(ho.slot, &heap));
    assert!(outer.equals(&outer, &heap));
}

#[test]
fn remove_takes_the_entry_out() {
    let mut heap = Heap::new();
    let mut m = StackObject::make(Kind::Dict, &mut heap);
    let mut m2 = m.ref_clone();
    let h = map_handle(&mut m);
    assert!(heap.map_insert(&h, num(1), num(8)).is_ok());
    assert!(heap.map_insert(&h, num(2), num(9)).is_ok());
    assert!(heap.map_remove(&h, &num(3)).is_none());
    assert_eq!(heap.map_len(&h), 2);
    let h2 = map_handle(&mut m2);
    assert_eq!(heap.map_remove(&h2, &num(1)).unwrap().as_int(), Some(8));
    assert_eq!(heap.map_len(&h), 1);
    assert!(heap.map_get(&h, &num(1)).is_none());
    assert_eq!(heap.map_get(&h, &num(2)).unwrap().as_int(), Some(9));
}

#[test]
fn keys_stay_apart_through_insert_and_remove() {
    let mut heap = Heap::new();
    let ka = text(&mut heap, "a");
    let kb = text(&mut heap, "b");
    let mut m = StackObject::make_from(Native::Dict(vec![(ka, num(1)), (kb, num(2))]), &mut heap);
    let h = map_handle(&mut m);
    let again = text(&mut heap, "a");
    let prev = heap.map_insert(&h, again, num(3)).unwrap().unwrap();
    assert_eq!(prev.as_int(), Some(1));
    assert_eq!(heap.map_len(&h), 2);
    let probe = text(&mut heap, "a");
    assert_eq!(heap.map_remove(&h, &probe).unwrap().as_int(), Some(3));
    assert!(heap.map_get(&h, &probe).is_none());
    assert_eq!(heap.map_len(&h), 1);
    let mut copy = m.deep_clone(&mut heap);
    let hc = map_handle(&mut copy);
    let pb = text(&mut heap, "b");
    assert_eq!(heap.map_get(&hc, &pb).unwrap().as_int(), Some(2));
}
