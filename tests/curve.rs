use hilbert_matmul::traversal::curve_order;

#[test]
fn first_level_order() {
    assert_eq!(curve_order(0), vec![(0, 0)]);
    assert_eq!(curve_order(1), vec![(0, 0), (0, 1), (1, 1), (1, 0)]);
}

#[test]
fn curve_visits_every_cell_once() {
    for level in 0u8..=7 {
        let side = 1isize << level;
        let order = curve_order(level);
        assert_eq!(order.len(), (side * side) as usize);
        let mut seen = vec![false; (side * side) as usize];
        for &(i, j) in &order {
            assert!(0 <= i && i < side && 0 <= j && j < side);
            let k = (i * side + j) as usize;
            assert!(!seen[k], "cell ({}, {}) visited twice", i, j);
            seen[k] = true;
        }
        assert!(seen.iter().all(|&s| s));
    }
}

#[test]
fn consecutive_cells_are_neighbours() {
    for level in 0u8..=7 {
        let order = curve_order(level);
        for w in order.windows(2) {
            let (a, b) = (w[0], w[1]);
            assert_eq!((a.0 - b.0).abs() + (a.1 - b.1).abs(), 1);
        }
    }
}

#[test]
fn curve_ends_at_bottom_left() {
    for level in 0u8..=6 {
        let side = 1isize << level;
        let order = curve_order(level);
        assert_eq!(order[0], (0, 0));
        assert_eq!(*order.last().unwrap(), (side - 1, 0));
    }
}
