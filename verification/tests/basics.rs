use stack_object::copying::Native;
use stack_object::object::StackObject;
use stack_object::store::{Heap, Kind};

#[test]
fn downcasts_give_the_datum_or_nothing() {
    let mut heap = Heap::new();
    let mut i = StackObject::make_from(Native::Integer(7), &mut heap);
    let mut b = StackObject::make_from(Native::Boolean(true), &mut heap);
    let mut t = StackObject::make_from(Native::Text("hi".to_string()), &mut heap);
    let mut l = StackObject::make_from(Native::List(vec![]), &mut heap);
    let mut m = StackObject::make_from(Native::Dict(vec![]), &mut heap);
    assert_eq!(i.as_int(), Some(7));
    assert_eq!(i.as_bool(), None);
    assert_eq!(b.as_bool(), Some(true));
    assert_eq!(b.as_int(), None);
    assert_eq!(t.as_int(), None);
    assert!(i.as_map_rc().is_none());
    assert!(i.as_vector_rc().is_none());
    assert!(b.as_string_rc().is_none());
    assert_eq!(t.as_string_rc().unwrap().slot, 0);
    assert!(t.as_map_rc().is_none());
    assert_eq!(l.as_vector_rc().unwrap().slot, 1);
    assert!(l.as_string_rc().is_none());
    assert_eq!(m.as_map_rc().unwrap().slot, 2);
    assert!(m.as_vector_rc().is_none());
    assert_eq!(i.as_int(), Some(7));
}

#[test]
fn primitives_convert_into_values() {
    let a: StackObject = 5i64.into();
    let b = StackObject::from(true);
    assert_eq!(a.as_int(), Some(5));
    assert_eq!(b.as_bool(), Some(true));
}

#[test]
fn which_variants_can_be_keys() {
    let mut heap = Heap::new();
    assert!(StackObject::Integer(0).can_hash());
    assert!(StackObject::Boolean(false).can_hash());
    assert!(StackObject::make(Kind::Text, &mut heap).can_hash());
    assert!(!StackObject::make(Kind::List, &mut heap).can_hash());
    assert!(!StackObject::make(Kind::Dict, &mut heap).can_hash());
}

#[test]
fn empty_values_of_each_kind() {
    let mut heap = Heap::new();
    assert_eq!(StackObject::make(Kind::Integer, &mut heap).as_int(), Some(0));
    assert_eq!(StackObject::make(Kind::Boolean, &mut heap).as_bool(), Some(false));
    assert_eq!(heap.len(), 0);
    let mut t = StackObject::make(Kind::Text, &mut heap);
    let mut l = StackObject::make(Kind::List, &mut heap);
    let mut m = StackObject::make(Kind::Dict, &mut heap);
    assert_eq!(heap.len(), 3);
    assert_eq!(heap.kind(0), Some(Kind::Text));
    assert_eq!(heap.kind(1), Some(Kind::List));
    assert_eq!(heap.kind(2), Some(Kind::Dict));
    assert_eq!(heap.kind(3), None);
    assert_eq!(heap.text_get(&t.as_string_rc().unwrap()), "");
    assert_eq!(heap.list_len(&l.as_vector_rc().unwrap()), 0);
    assert_eq!(heap.map_len(&m.as_map_rc().unwrap()), 0);
}

#[test]
fn alias_of_a_primitive_is_a_copy() {
    let a = StackObject::Integer(3);
    let b = a.ref_clone();
    assert_eq!(b.as_int(), Some(3));
    let c = StackObject::Boolean(false).ref_clone();
    assert_eq!(c.as_bool(), Some(false));
}

#[test]
fn alias_of_a_compound_value_shares_the_cell() {
    let mut heap = Heap::new();
    let mut t = StackObject::make_from(Native::Text("a".to_string()), &mut heap);
    let mut t2 = t.ref_clone();
    let h = t.as_string_rc().unwrap();
    let h2 = t2.as_string_rc().unwrap();
    assert_eq!(h.slot, h2.slot);
    assert_eq!(h.duplicate().slot, h.slot);
    assert_eq!(heap.len(), 1);
    heap.text_append(&h, "b");
    assert_eq!(heap.text_get(&h2), "ab");
    assert!(t.equals(&t2, &heap));
}

#[test]
fn texts_compare_by_their_characters() {
    let mut heap = Heap::new();
    let a = StackObject::make_from(Native::Text("abc".to_string()), &mut heap);
    let b = StackObject::make_from(Native::Text("abc".to_string()), &mut heap);
    let c = StackObject::make_from(Native::Text("abd".to_string()), &mut heap);
    assert!(a.equals(&b, &heap));
    assert!(!a.equals(&c, &heap));
}

#[test]
fn lists_of_different_length_are_unequal() {
    let mut heap = Heap::new();
    let a = StackObject::make_from(Native::List(vec![StackObject::Integer(1)]), &mut heap);
    let b = StackObject::make_from(
        Native::List(vec![StackObject::Integer(1), StackObject::Integer(1)]),
        &mut heap,
    );
    assert!(!a.equals(&b, &heap));
    assert!(!b.equals(&a, &heap));
}

#[test]
fn hash_codes() {
    let mut heap = Heap::new();
    assert_eq!(StackObject::Integer(0).hash(&heap), 9223372036854775808);
    assert_eq!(StackObject::Integer(-1).hash(&heap), 9223372036854775807);
    assert_eq!(StackObject::Integer(i64::MIN).hash(&heap), 0);
    assert_eq!(StackObject::Integer(i64::MAX).hash(&heap), u64::MAX);
    assert_eq!(StackObject::Boolean(false).hash(&heap), 0);
    assert_eq!(StackObject::Boolean(true).hash(&heap), 1);
    let e = StackObject::make(Kind::Text, &mut heap);
    let a = StackObject::make_from(Native::Text("a".to_string()), &mut heap);
    let ab = StackObject::make_from(Native::Text("ab".to_string()), &mut heap);
    assert_eq!(e.hash(&heap), 7);
    assert_eq!(a.hash(&heap), 314);
    assert_eq!(ab.hash(&heap), 9832);
}

#[test]
fn equal_keys_have_equal_hash_codes() {
    let mut heap = Heap::new();
    let a = StackObject::make_from(Native::Text("key".to_string()), &mut heap);
    let b = StackObject::make_from(Native::Text("key".to_string()), &mut heap);
    assert!(a.equals(&b, &heap));
    assert_eq!(a.hash(&heap), b.hash(&heap));
    let mut t = a.ref_clone();
    let h = t.as_string_rc().unwrap();
    heap.text_append(&h, "s");
    assert!(!a.equals(&b, &heap));
    assert_ne!(a.hash(&heap), b.hash(&heap));
}

#[test]
fn text_hash_wraps_in_64_bits() {
    let mut heap = Heap::new();
    let long = StackObject::make_from(Native::Text("zzzzzzzzzzzzzzzzzzzz".to_string()), &mut heap);
    let mut code: u128 = 7;
    let mut i = 0;
    while i < 20 {
        code = (code * 31 + 122) % 18446744073709551616u128;
        i += 1;
    }
    assert_eq!(long.hash(&heap) as u128, code);
}
