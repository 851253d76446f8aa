use jj_lib::index::change_ids::ChangeIdIndexImpl;
use jj_lib::index::heap::PositionHeap;
use jj_lib::index::dedup_pop;
use jj_lib::index::dedup_replace;
use jj_lib::index::remove_dup;
use jj_lib::index::prefix::bytes_less;
use jj_lib::index::prefix::common_hex_len;
use jj_lib::index::CompositeIndex;
use jj_lib::index::HexPrefix;
use jj_lib::index::IndexPosition;
use jj_lib::index::PrefixResolution;
use jj_lib::object_id::ChangeId;
use jj_lib::object_id::CommitId;

fn commit_id(hex: &str) -> CommitId {
    CommitId::from_hex(hex)
}

fn change_id(byte: u8) -> ChangeId {
    ChangeId::new(vec![byte; 4])
}

fn positions(list: &[u32]) -> Vec<IndexPosition> {
    list.iter().map(|&p| IndexPosition(p)).collect()
}

/// A: root; B, C: children of A; D: merge of B and C; E: child of C.
fn diamond() -> CompositeIndex {
    let mut index = CompositeIndex::new();
    let a = index.add_commit(commit_id("aa00"), change_id(1), vec![]).unwrap();
    let b = index.add_commit(commit_id("ab10"), change_id(2), vec![a]).unwrap();
    index.begin_segment(Some("second".to_string()));
    let c = index.add_commit(commit_id("ab20"), change_id(3), vec![a]).unwrap();
    let d = index.add_commit(commit_id("cd00"), change_id(4), vec![b, c]).unwrap();
    let e = index.add_commit(commit_id("ee00"), change_id(3), vec![c]).unwrap();
    assert_eq!((a, b, c, d, e), (
        IndexPosition(0),
        IndexPosition(1),
        IndexPosition(2),
        IndexPosition(3),
        IndexPosition(4),
    ));
    index
}

#[test]
fn test_index_generation_numbers() {
    let index = diamond();
    let generations: Vec<u32> = (0..5)
        .map(|p| index.entry_by_pos(IndexPosition(p)).generation_number())
        .collect();
    assert_eq!(generations, vec![0, 1, 1, 2, 2]);
    assert_eq!(index.num_commits(), 5);
}

#[test]
fn test_index_add_commit_refuses_duplicates_and_unknown_parents() {
    let mut index = diamond();
    assert_eq!(index.add_commit(commit_id("aa00"), change_id(9), vec![]), None);
    assert_eq!(
        index.add_commit(commit_id("ff00"), change_id(9), vec![IndexPosition(7)]),
        None
    );
    assert_eq!(index.num_commits(), 5);
}

#[test]
fn test_index_lookup_across_segments() {
    let index = diamond();
    assert_eq!(index.commit_id_to_pos(&commit_id("aa00")), Some(IndexPosition(0)));
    assert_eq!(index.commit_id_to_pos(&commit_id("cd00")), Some(IndexPosition(3)));
    assert_eq!(index.commit_id_to_pos(&commit_id("0000")), None);
    assert!(index.has_id(&commit_id("ee00")));
    assert!(!index.has_id(&commit_id("ee01")));
    let entry = index.entry_by_id(&commit_id("cd00")).unwrap();
    assert_eq!(entry.position(), IndexPosition(3));
    assert_eq!(entry.num_parents(), 2);
    assert_eq!(entry.parent_positions(), &positions(&[1, 2])[..]);
}

#[test]
fn test_is_ancestor_pos_follows_parent_edges() {
    let index = diamond();
    let expected = [
        (0, 0, true),
        (0, 3, true),
        (0, 4, true),
        (1, 3, true),
        (2, 3, true),
        (2, 4, true),
        (1, 4, false),
        (1, 2, false),
        (3, 0, false),
        (3, 4, false),
        (4, 3, false),
    ];
    for (ancestor, descendant, is_ancestor) in expected {
        assert_eq!(
            index.is_ancestor_pos(IndexPosition(ancestor), IndexPosition(descendant)),
            is_ancestor,
            "{ancestor} {descendant}"
        );
    }
    assert!(index.is_ancestor(&commit_id("aa00"), &commit_id("cd00")));
    assert!(!index.is_ancestor(&commit_id("cd00"), &commit_id("aa00")));
}

#[test]
fn test_common_ancestors_pos_of_merge_and_root() {
    // Generation numbers [0, 1, 1, 2] for [A, B, C, D]; D's parents are B
    // and C, and both have the parent A.
    let index = diamond();
    assert_eq!(
        index.common_ancestors_pos(positions(&[3]), positions(&[0])),
        positions(&[0])
    );
    assert_eq!(
        index.common_ancestors_pos(positions(&[0]), positions(&[3])),
        positions(&[0])
    );
}

#[test]
fn test_common_ancestors_pos_are_heads() {
    let index = diamond();
    assert_eq!(
        index.common_ancestors_pos(positions(&[3]), positions(&[4])),
        positions(&[2])
    );
    assert_eq!(
        index.common_ancestors_pos(positions(&[1]), positions(&[2])),
        positions(&[0])
    );
    assert_eq!(
        index.common_ancestors_pos(positions(&[3, 4]), positions(&[3])),
        positions(&[3])
    );
    assert_eq!(
        index.common_ancestors_pos(positions(&[3]), positions(&[1, 2])),
        positions(&[2, 1])
    );
    assert_eq!(index.common_ancestors_pos(positions(&[]), positions(&[3])), positions(&[]));
}

#[test]
fn test_heads_pos_removes_ancestors() {
    let index = diamond();
    assert_eq!(index.heads_pos(positions(&[])), positions(&[]));
    assert_eq!(index.heads_pos(positions(&[4, 3, 2, 1, 0])), positions(&[4, 3]));
    assert_eq!(index.heads_pos(positions(&[2, 1, 0])), positions(&[2, 1]));
    assert_eq!(index.heads_pos(positions(&[4, 1])), positions(&[4, 1]));
    assert_eq!(index.heads_pos(positions(&[3, 0])), positions(&[3]));
}

#[test]
fn test_all_heads_and_stats() {
    let index = diamond();
    assert_eq!(index.all_heads_pos(), positions(&[3, 4]));
    assert_eq!(index.all_heads(), vec![commit_id("cd00"), commit_id("ee00")]);
    let stats = index.stats();
    assert_eq!(stats.num_commits, 5);
    assert_eq!(stats.num_merges, 1);
    assert_eq!(stats.max_generation_number, 2);
    assert_eq!(stats.num_heads, 2);
    assert_eq!(stats.num_changes, 4);
    let levels: Vec<(u32, Option<String>)> =
        stats.levels.into_iter().map(|level| (level.num_commits, level.name)).collect();
    assert_eq!(levels, vec![(2, None), (3, Some("second".to_string()))]);
}

#[test]
fn test_resolve_commit_id_prefix() {
    let index = diamond();
    let resolve = |prefix: &str| index.resolve_commit_id_prefix(&HexPrefix::new(prefix).unwrap());
    assert_eq!(resolve("f"), PrefixResolution::NoMatch);
    assert_eq!(resolve("a"), PrefixResolution::AmbiguousMatch);
    assert_eq!(resolve("ab"), PrefixResolution::AmbiguousMatch);
    assert_eq!(resolve("ab1"), PrefixResolution::SingleMatch(commit_id("ab10")));
    assert_eq!(resolve("aa"), PrefixResolution::SingleMatch(commit_id("aa00")));
    assert_eq!(resolve("c"), PrefixResolution::SingleMatch(commit_id("cd00")));
    assert_eq!(resolve("cd000"), PrefixResolution::NoMatch);
    assert_eq!(resolve(""), PrefixResolution::AmbiguousMatch);
    assert!(HexPrefix::new("xyz").is_none());
}

#[test]
fn test_resolve_prefix_stays_with_longer_prefix() {
    let index = diamond();
    let id = commit_id("ab20");
    for len in 3..=4 {
        let prefix = HexPrefix::new(&"ab20"[..len]).unwrap();
        assert_eq!(
            index.resolve_commit_id_prefix(&prefix),
            PrefixResolution::SingleMatch(id.clone())
        );
    }
    assert_eq!(
        index.resolve_commit_id_prefix(&HexPrefix::new("ab21").unwrap()),
        PrefixResolution::NoMatch
    );
}

#[test]
fn test_resolve_change_id_prefix() {
    let index = diamond();
    let resolve = |prefix: &str| index.resolve_change_id_prefix(&HexPrefix::new(prefix).unwrap());
    assert_eq!(resolve("09"), PrefixResolution::NoMatch);
    assert_eq!(resolve("0"), PrefixResolution::AmbiguousMatch);
    assert_eq!(
        resolve("03"),
        PrefixResolution::SingleMatch((change_id(3), positions(&[2, 4])))
    );
    assert_eq!(resolve("01"), PrefixResolution::SingleMatch((change_id(1), positions(&[0]))));
}

#[test]
fn test_change_id_index_hides_unreachable_commits() {
    let index = diamond();
    let heads = [commit_id("cd00")];
    let change_index = ChangeIdIndexImpl::new(&index, &heads);
    let resolve = |prefix: &str| change_index.resolve_prefix(&HexPrefix::new(prefix).unwrap());
    // The commit at position 4 is of the change 3, but no ancestor of D.
    assert_eq!(resolve("03"), PrefixResolution::SingleMatch(vec![commit_id("ab20")]));
    assert_eq!(resolve("04"), PrefixResolution::SingleMatch(vec![commit_id("cd00")]));
    assert_eq!(resolve("0"), PrefixResolution::AmbiguousMatch);
    assert_eq!(resolve("05"), PrefixResolution::NoMatch);

    let heads = [commit_id("ab10")];
    let change_index = ChangeIdIndexImpl::new(&index, &heads);
    let resolve = |prefix: &str| change_index.resolve_prefix(&HexPrefix::new(prefix).unwrap());
    assert_eq!(resolve("03"), PrefixResolution::NoMatch);
    assert_eq!(change_index.shortest_unique_prefix_len(&change_id(3)), 2);
}

#[test]
fn test_neighbor_ids_and_shortest_prefix() {
    let index = diamond();
    assert_eq!(
        index.resolve_neighbor_commit_ids(&commit_id("ab20")),
        (Some(commit_id("ab10")), Some(commit_id("cd00")))
    );
    assert_eq!(
        index.resolve_neighbor_commit_ids(&commit_id("aa00")),
        (None, Some(commit_id("ab10")))
    );
    assert_eq!(
        index.resolve_neighbor_commit_ids(&commit_id("ee00")),
        (Some(commit_id("cd00")), None)
    );
    assert_eq!(index.shortest_unique_commit_id_prefix_len(&commit_id("ab20")), 3);
    assert_eq!(index.shortest_unique_commit_id_prefix_len(&commit_id("aa00")), 2);
    assert_eq!(index.shortest_unique_commit_id_prefix_len(&commit_id("cd00")), 1);
    assert_eq!(index.shortest_unique_commit_id_prefix_len(&commit_id("ee00")), 1);
    assert_eq!(
        CompositeIndex::new().shortest_unique_commit_id_prefix_len(&commit_id("ee00")),
        0
    );
}

#[test]
fn test_common_hex_len_and_byte_order() {
    assert_eq!(common_hex_len(b"", b""), 0);
    assert_eq!(common_hex_len(b"\x12\x34", b"\x12\x34"), 4);
    assert_eq!(common_hex_len(b"\x12\x34", b"\x12\x35"), 3);
    assert_eq!(common_hex_len(b"\x12\x34", b"\x12\x44"), 2);
    assert_eq!(common_hex_len(b"\x12\x34", b"\x12"), 2);
    assert_eq!(common_hex_len(b"\x12\x34", b"\x22"), 0);
    assert!(bytes_less(b"a", b"b"));
    assert!(bytes_less(b"a", b"ab"));
    assert!(bytes_less(b"", b"a"));
    assert!(!bytes_less(b"a", b"a"));
    assert!(!bytes_less(b"b", b"ab"));
}

#[test]
fn test_position_heap_dedup() {
    let mut heap = PositionHeap::from_vec(vec![3, 7, 7, 1, 7, 5]);
    assert_eq!(heap.peek(), Some(7));
    assert_eq!(dedup_pop(&mut heap), Some(7));
    assert_eq!(heap.peek(), Some(5));
    assert_eq!(dedup_replace(&mut heap, 3), Some(5));
    assert_eq!(dedup_pop(&mut heap), Some(3));
    assert_eq!(dedup_pop(&mut heap), Some(1));
    assert_eq!(dedup_pop(&mut heap), None);
    assert!(heap.is_empty());
    heap.push(2);
    assert_eq!(dedup_replace(&mut heap, 1), Some(2));
    assert_eq!(heap.peek(), Some(1));
}

#[test]
fn test_heads_from_range_and_filter() {
    let index = diamond();
    // Everything is wanted: the head is the merge.
    let all = index.heads_from_range_and_filter(vec![], positions(&[3]), |_| {
        Ok::<bool, String>(true)
    });
    assert_eq!(all, Ok(positions(&[3])));
    // Without the merge, its two parents are the heads.
    let without_merge = index.heads_from_range_and_filter(vec![], positions(&[3]), |pos| {
        Ok::<bool, String>(pos.0 != 3)
    });
    assert_eq!(without_merge, Ok(positions(&[2, 1])));
    // What the roots reach is left out.
    let above_root = index.heads_from_range_and_filter(positions(&[0]), positions(&[1]), |_| {
        Ok::<bool, String>(true)
    });
    assert_eq!(above_root, Ok(positions(&[1])));
    let nothing = index.heads_from_range_and_filter(positions(&[3]), positions(&[3]), |_| {
        Ok::<bool, String>(true)
    });
    assert_eq!(nothing, Ok(vec![]));
    // The error of the filter is passed on.
    let failed = index.heads_from_range_and_filter(vec![], positions(&[3]), |pos| {
        if pos.0 == 2 {
            Err("refused".to_string())
        } else {
            Ok(false)
        }
    });
    assert_eq!(failed, Err("refused".to_string()));
}

#[test]
fn test_heads_and_common_ancestors_by_ids() {
    let index = diamond();
    let (a, b, c, d, e) = (
        commit_id("aa00"),
        commit_id("ab10"),
        commit_id("ab20"),
        commit_id("cd00"),
        commit_id("ee00"),
    );
    assert_eq!(index.common_ancestors(&[d.clone()], &[a.clone()]), vec![a.clone()]);
    assert_eq!(index.common_ancestors(&[d.clone()], &[e.clone()]), vec![c.clone()]);
    assert_eq!(index.common_ancestors(&[b.clone()], &[c.clone()]), vec![a.clone()]);
    assert_eq!(index.common_ancestors(&[b.clone()], &[]), Vec::<CommitId>::new());
    assert_eq!(index.heads(&[a.clone(), b.clone(), d.clone(), b.clone()]), vec![d.clone()]);
    assert_eq!(index.heads(&[b.clone(), c.clone()]), vec![c.clone(), b.clone()]);
    assert_eq!(index.heads(&[]), Vec::<CommitId>::new());
    assert_eq!(index.positions_of_ids(&[e, a]), positions(&[4, 0]));
    assert_eq!(index.ids_of_positions(&positions(&[3, 1])), vec![d, b]);
}

#[test]
fn test_position_heap_keeps_other_duplicates() {
    // Only the duplicates of the greatest position leave with it.
    let mut heap = PositionHeap::from_vec(vec![4, 9, 4, 9, 2]);
    assert_eq!(dedup_pop(&mut heap), Some(9));
    assert_eq!(heap.peek(), Some(4));
    assert_eq!(dedup_pop(&mut heap), Some(4));
    assert_eq!(dedup_pop(&mut heap), Some(2));
    assert_eq!(dedup_pop(&mut heap), None);

    // A position that is not the greatest is not removed.
    let mut heap = PositionHeap::from_vec(vec![4, 9, 4]);
    remove_dup(&mut heap, 4);
    assert_eq!(dedup_pop(&mut heap), Some(9));
    assert_eq!(dedup_pop(&mut heap), Some(4));
    assert_eq!(dedup_pop(&mut heap), None);

    // A greater position takes the place of the greatest one only: the
    // duplicates of that one stay below it.
    let mut heap = PositionHeap::from_vec(vec![5, 5, 1]);
    assert_eq!(dedup_replace(&mut heap, 8), Some(5));
    assert_eq!(dedup_pop(&mut heap), Some(8));
    assert_eq!(dedup_pop(&mut heap), Some(5));
    assert_eq!(dedup_pop(&mut heap), Some(1));
    assert_eq!(dedup_pop(&mut heap), None);

    // An equal position leaves with the duplicates.
    let mut heap = PositionHeap::from_vec(vec![5, 5, 1]);
    assert_eq!(dedup_replace(&mut heap, 5), Some(5));
    assert_eq!(dedup_pop(&mut heap), Some(1));
    assert_eq!(dedup_replace(&mut heap, 3), None);
    assert_eq!(dedup_pop(&mut heap), None);
}

#[test]
fn test_change_id_index_gives_visible_commits_in_order() {
    let index = diamond();
    // The change 3 has the commits c and e; both are visible from e.
    let by_change = ChangeIdIndexImpl::new(&index, &[commit_id("ee00")]);
    let prefix = HexPrefix::new("03").unwrap();
    assert_eq!(
        by_change.resolve_prefix(&prefix),
        PrefixResolution::SingleMatch(vec![commit_id("ab20"), commit_id("ee00")])
    );
    // A longer prefix of the same change gives the same commits.
    let longer = HexPrefix::new("0303").unwrap();
    assert_eq!(
        by_change.resolve_prefix(&longer),
        PrefixResolution::SingleMatch(vec![commit_id("ab20"), commit_id("ee00")])
    );
    assert_eq!(
        by_change.resolve_prefix(&HexPrefix::new("0304").unwrap()),
        PrefixResolution::NoMatch
    );
    // From d, only c is visible.
    let by_change = ChangeIdIndexImpl::new(&index, &[commit_id("cd00")]);
    assert_eq!(
        by_change.resolve_prefix(&prefix),
        PrefixResolution::SingleMatch(vec![commit_id("ab20")])
    );
}
