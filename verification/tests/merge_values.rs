use jj_lib::merge::Merge;

fn simplified(values: Vec<u32>) -> Vec<u32> {
    Merge::from_vec(values).simplify().into_vec()
}

#[test]
fn test_merge_resolved_has_one_add_and_no_remove() {
    let merge = Merge::resolved(7);
    assert!(merge.is_resolved());
    assert_eq!(merge.num_sides(), 1);
    assert_eq!(merge.as_resolved(), Some(&7));
    assert_eq!(merge.get_add(0), Some(&7));
    assert_eq!(merge.get_add(1), None);
    assert_eq!(merge.get_remove(0), None);

    let conflict = Merge::from_vec(vec![1, 2, 3]);
    assert!(!conflict.is_resolved());
    assert_eq!(conflict.num_sides(), 2);
    assert_eq!(conflict.as_resolved(), None);
    assert_eq!(conflict.first(), &1);
    assert_eq!(conflict.get_add(1), Some(&3));
    assert_eq!(conflict.get_remove(0), Some(&2));
    assert_eq!(conflict.get_remove(1), None);
}

#[test]
fn test_merge_simplify_cancels_equal_terms() {
    // Terms in turn: add, remove, add, ...
    assert_eq!(simplified(vec![0]), vec![0]);
    assert_eq!(simplified(vec![0, 0, 0]), vec![0]);
    assert_eq!(simplified(vec![0, 0, 1]), vec![1]);
    assert_eq!(simplified(vec![1, 0, 0]), vec![1]);
    assert_eq!(simplified(vec![0, 1, 0]), vec![0, 1, 0]);
    assert_eq!(simplified(vec![0, 1, 2]), vec![0, 1, 2]);
    assert_eq!(simplified(vec![0, 1, 1, 2, 3]), vec![0, 2, 3]);
    assert_eq!(simplified(vec![0, 1, 2, 0, 3]), vec![3, 1, 2]);
    assert_eq!(simplified(vec![0, 1, 2, 2, 1]), vec![0]);
    assert_eq!(simplified(vec![0, 1, 2, 3, 1]), vec![0, 3, 2]);
    assert_eq!(simplified(vec![0, 1, 2, 3, 4, 5, 1]), vec![0, 3, 4, 5, 2]);
}

#[test]
fn test_merge_simplify_is_idempotent() {
    let cases: Vec<Vec<u32>> = vec![
        vec![0],
        vec![0, 1, 2],
        vec![0, 0, 1],
        vec![0, 1, 1, 2, 3],
        vec![0, 1, 2, 0, 3],
        vec![3, 1, 3, 1, 3],
        vec![0, 1, 2, 3, 4, 5, 1],
        vec![1, 2, 2, 1, 1, 2, 2],
    ];
    for values in cases {
        let once = simplified(values.clone());
        assert_eq!(once.len() % 2, 1);
        assert_eq!(simplified(once.clone()), once, "{values:?}");
        for (i, add) in once.iter().enumerate().step_by(2) {
            for remove in once.iter().skip(1).step_by(2) {
                assert_ne!(add, remove, "{values:?} at {i}");
            }
        }
    }
}

#[test]
fn test_update_from_simplified_puts_terms_back() {
    // The second add cancels against the remove.
    let merge = Merge::from_removes_adds(vec!["b"], vec!["a", "b"]);
    assert_eq!(merge.get_simplified_mapping(), vec![0]);
    assert_eq!(merge.clone().simplify(), Merge::resolved("a"));
    assert_eq!(
        merge.update_from_simplified(Merge::resolved("x")),
        Merge::from_vec(vec!["x", "b", "b"])
    );
    // The first add cancels, and the second takes its place.
    let merge = Merge::from_removes_adds(vec!["b"], vec!["b", "a"]);
    assert_eq!(merge.get_simplified_mapping(), vec![2]);
    assert_eq!(
        merge.update_from_simplified(Merge::resolved("x")),
        Merge::from_vec(vec!["b", "b", "x"])
    );
    // Nothing cancels.
    let merge = Merge::from_removes_adds(vec!["b"], vec!["a", "c"]);
    assert_eq!(merge.get_simplified_mapping(), vec![0, 1, 2]);
    assert_eq!(
        merge.update_from_simplified(Merge::from_vec(vec!["x", "y", "z"])),
        Merge::from_vec(vec!["x", "y", "z"])
    );
}

#[test]
fn test_from_removes_adds_puts_terms_in_turn() {
    let merge = Merge::from_removes_adds(vec![1, 3], vec![0, 2, 4]);
    assert_eq!(merge, Merge::from_vec(vec![0, 1, 2, 3, 4]));
    assert_eq!(merge.num_sides(), 3);
    assert_eq!(Merge::from_removes_adds(vec![], vec![7]), Merge::resolved(7));
    assert_eq!(Merge::normal(7), Merge::resolved(Some(7)));
}
