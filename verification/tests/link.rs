use kauffman::link::Link;
use kauffman::link::X;
use kauffman::poly;

#[test]
fn crossing_signs_follow_the_convention() {
    // fourth label 1 wins over everything else
    assert_eq!(X::new(4, 2, 5, 1).get_sign(), -1);
    // second label 1 comes next
    assert_eq!(X::new(1, 1, 2, 3).get_sign(), 1);
    // adjacent second and fourth labels
    assert_eq!(X::new(6, 3, 7, 4).get_sign(), -1);
    // everything else is positive
    assert_eq!(X::new(1, 5, 2, 4).get_sign(), 1);
    // a fourth label of 1 outranks a second label of 1
    assert_eq!(X::new(2, 1, 3, 1).get_sign(), -1);
}

#[test]
fn count_loops_zero_crossings_returns_edge_count() {
    let link = Link::new(vec![]);
    assert_eq!(link.count_loops(0), 0);
}

#[test]
fn count_loops_trefoil_smoothings() {
    let trefoil = Link::new(vec![X::new(1, 5, 2, 4), X::new(5, 3, 6, 2), X::new(3, 1, 4, 6)]);
    assert_eq!(trefoil.count_loops(0), 2);
    assert_eq!(trefoil.count_loops(1), 1);
    assert_eq!(trefoil.count_loops(3), 2);
    assert_eq!(trefoil.count_loops(7), 3);
}

#[test]
fn jones_of_the_unknotted_diagram() {
    let link = Link::new(vec![]);
    let expected = poly::new(vec![1], 0);
    assert_eq!(link.jones(), expected);
}

#[test]
fn jones_of_the_trefoil() {
    let trefoil = Link::new(vec![X::new(1, 5, 2, 4), X::new(5, 3, 6, 2), X::new(3, 1, 4, 6)]);
    let expected = poly::new(vec![1, 0, 1, 0, 1, 0, 0, 0, -1], 1);
    assert_eq!(trefoil.jones(), expected);
}

#[test]
fn jones_of_the_figure_eight() {
    let figure_eight = Link::new(vec![
        X::new(4, 2, 5, 1),
        X::new(8, 6, 1, 5),
        X::new(6, 3, 7, 4),
        X::new(2, 7, 3, 8),
    ]);
    let expected = poly::new(vec![-1, 0, 0, 0, 0, 0, 0, 0, 0, 0, -1], -8);
    assert_eq!(figure_eight.jones(), expected);
}
