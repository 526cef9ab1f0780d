use kauffman::cobordism::Cobordism;
use kauffman::cobordism::Smoothing;

#[test]
fn smoothing_partitions_its_points() {
    // two boundary points on one curve
    let a = Smoothing::new(vec![0, 1], vec![], vec![(0, 1)]);
    assert_eq!(a.size(), 2);
    let mut curves = a.curves.clone();
    assert_eq!(curves.num_components(), 1);
    assert!(curves.connected(0, 1));
}

#[test]
fn smoothing_with_a_loop() {
    let b = Smoothing::new(vec![0, 1], vec![2], vec![(0, 1)]);
    assert_eq!(b.size(), 3);
    let mut curves = b.curves.clone();
    assert_eq!(curves.num_components(), 2);
    assert!(!curves.connected(0, 2));
}

#[test]
fn smoothing_composition_is_disjoint() {
    let a = Smoothing::new(vec![0, 1], vec![], vec![(0, 1)]);
    let b = Smoothing::new(vec![0, 1], vec![2], vec![(0, 1)]);
    let c = a.compose(&b);
    assert_eq!(c.size(), 5);
    let mut curves = c.curves.clone();
    assert_eq!(curves.num_components(), 3);
    assert!(curves.connected(0, 1));
    assert!(curves.connected(2, 3));
    assert!(!curves.connected(1, 2));
    assert!(!curves.connected(0, 4));
}

#[test]
fn identity_cobordism_glues_matching_boundaries() {
    let a = Smoothing::new(vec![0, 1], vec![], vec![(0, 1)]);
    let c = Cobordism::new(&a, &a, vec![], vec![]);
    // the result exists and carries a's boundary; composition with itself
    // exercises the stacking path
    let d = c.compose(&c);
    let _ = d;
}

#[test]
fn cobordisms_stack() {
    let a = Smoothing::new(vec![0, 1], vec![], vec![(0, 1)]);
    let b = Smoothing::new(vec![0, 1], vec![2], vec![(0, 1)]);
    let x = Cobordism::new(&a, &b, vec![(0, 2)], vec![]);
    let y = Cobordism::new(&b, &a, vec![(2, 1)], vec![]);
    let xy = x.compose(&y);
    let yx = y.compose(&x);
    let _ = (xy, yx);
}

#[test]
fn bubbles_become_extra_components() {
    let a = Smoothing::new(vec![0], vec![], vec![]);
    let c = Cobordism::new(&a, &a, vec![], vec![3]);
    let _ = c;
}
