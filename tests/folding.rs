use map_folding::folding::{FoldingError, MapFolding};

#[test]
fn round_trip_keeps_the_stack() {
    let stacks: Vec<Vec<u64>> = vec![
        vec![1],
        vec![2, 1],
        vec![3, 1, 2],
        vec![5, 4, 3, 6, 2, 7, 1, 8],
        vec![1, 2, 3, 4, 5, 6],
    ];
    for s in stacks {
        let f = MapFolding::from_stack(&s).unwrap();
        assert_eq!(f.stack(), s.as_slice());
    }
}

#[test]
fn empty_stack_is_accepted() {
    let f = MapFolding::from_stack(&[]).unwrap();
    assert!(f.stack().is_empty());
    assert_eq!(f.positions(), vec![0]);
    assert!(f.is_foldable());
}

#[test]
fn positions_invert_the_stack() {
    let s: Vec<u64> = vec![5, 4, 3, 6, 2, 7, 1, 8];
    let f = MapFolding::from_stack(&s).unwrap();
    let pos = f.positions();
    assert_eq!(pos, vec![0, 6, 4, 2, 1, 0, 3, 5, 7]);
    for (i, &v) in f.stack().iter().enumerate() {
        assert_eq!(pos[v as usize], i);
    }
}

#[test]
fn zero_based_ids_are_out_of_range() {
    for n in 1..8u64 {
        let s: Vec<u64> = (0..n).collect();
        assert_eq!(
            MapFolding::from_stack(&s).err(),
            Some(FoldingError::RangeError)
        );
    }
}

#[test]
fn repeated_id_is_incomplete() {
    assert_eq!(
        MapFolding::from_stack(&[1, 2, 2, 4]).err(),
        Some(FoldingError::CompletenessError)
    );
    assert_eq!(
        MapFolding::from_stack(&[3, 1, 3]).err(),
        Some(FoldingError::CompletenessError)
    );
}

#[test]
fn length_mismatch_is_out_of_range() {
    // one layer too few for the ids 1..=4
    assert_eq!(
        MapFolding::from_stack(&[1, 2, 4]).err(),
        Some(FoldingError::RangeError)
    );
    // one layer too many for the ids 1..=3
    assert_eq!(
        MapFolding::from_stack(&[1, 2, 3, 3]).err(),
        Some(FoldingError::RangeError)
    );
    assert_eq!(
        MapFolding::from_stack(&[2, 3]).err(),
        Some(FoldingError::RangeError)
    );
}

#[test]
fn increasing_stack_is_foldable() {
    for n in 1..12u64 {
        let s: Vec<u64> = (1..n + 1).collect();
        assert!(MapFolding::from_stack(&s).unwrap().is_foldable());
    }
}

#[test]
fn known_unfoldable_stack() {
    let f = MapFolding::from_stack(&[5, 4, 3, 6, 2, 7, 1, 8]).unwrap();
    assert!(!f.is_foldable());
}

#[test]
fn crossing_odd_joints_are_unfoldable() {
    // joints 1-2 at layers (0, 2) and 3-4 at layers (1, 3) cross
    let f = MapFolding::from_stack(&[1, 3, 2, 4]).unwrap();
    assert!(!f.is_foldable());
    // joints 1-2 at layers (0, 3) and 3-4 at layers (1, 2) nest
    let g = MapFolding::from_stack(&[1, 3, 4, 2]).unwrap();
    assert!(g.is_foldable());
}

#[test]
fn crossing_even_joints_are_unfoldable() {
    // even joints 2-3 at layers (0, 2) and 4-5 at layers (1, 3) cross
    let f = MapFolding::from_stack(&[2, 4, 3, 5, 1]).unwrap();
    assert!(!f.is_foldable());
}
