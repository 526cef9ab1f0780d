use kauffman::set_union;

#[test]
fn singletons_have_one_component_each() {
    let s = set_union::new(7);
    assert_eq!(s.num_components(), 7);
    assert_eq!(s.size(), 7);
}

#[test]
fn connect_disconnected_drops_count_and_joins() {
    let mut s = set_union::new(5);
    assert!(!s.connected(0, 3));
    s.connect(0, 3);
    assert_eq!(s.num_components(), 4);
    assert!(s.connected(0, 3));
}

#[test]
fn repeated_connect_keeps_count() {
    let mut s = set_union::new(4);
    s.connect(1, 2);
    assert_eq!(s.num_components(), 3);
    s.connect(1, 2);
    assert_eq!(s.num_components(), 3);
    s.connect(2, 1);
    assert_eq!(s.num_components(), 3);
    assert!(s.connected(1, 2));
}

#[test]
fn insert_adds_singleton() {
    let mut s = set_union::new(3);
    s.connect(0, 1);
    assert_eq!(s.num_components(), 2);
    s.insert(0);
    assert_eq!(s.size(), 4);
    assert_eq!(s.num_components(), 3);
    assert!(!s.connected(3, 0));
}

#[test]
fn combine_is_a_disjoint_union() {
    let mut a = set_union::new(3);
    a.connect(0, 1);
    let mut b = set_union::new(2);
    b.connect(0, 1);
    let mut c = a.combine(&b);
    assert_eq!(c.size(), 5);
    assert_eq!(c.num_components(), a.num_components() + b.num_components());
    // connectivity internal to each side is preserved
    assert!(c.connected(0, 1));
    assert!(!c.connected(0, 2));
    assert!(c.connected(3, 4));
    // no element of the first operand is connected to one of the second
    assert!(!c.connected(0, 3));
    assert!(!c.connected(2, 4));
}

#[test]
fn find_returns_a_stable_representative() {
    let mut s = set_union::new(6);
    s.connect(0, 1);
    s.connect(1, 2);
    let r = s.find(0);
    assert_eq!(s.find(1), r);
    assert_eq!(s.find(2), r);
    assert_ne!(s.find(3), r);
}
