use tididi::level::{has_slack, InputPair, LocalNodeIdx, TddLevel};
use tididi::minimize::contract::merge::{compact_explicit_level, merge_two_internal_twins};

fn pair(l: u32, r: u32) -> InputPair {
    InputPair { left: LocalNodeIdx(l), right: LocalNodeIdx(r) }
}

/// Every node's pair slice, in arena order.
fn content(level: &TddLevel) -> Vec<Vec<InputPair>> {
    (0..level.nodes.len()).map(|i| level.pairs_of_idx(i).to_vec()).collect()
}

/// Arena slots owned by live nodes.
fn live_pairs(level: &TddLevel) -> usize {
    (0..level.nodes.len()).map(|i| level.arena_pairs_at(i)).sum()
}

/// One contraction round over the nodes from `first` on: merge each adjacent
/// pair, then drop the absorbed nodes.
fn merge_adjacent_round(level: &mut TddLevel, first: usize) {
    let n = level.nodes.len();
    let mut merge_target: Vec<u32> = (0..n as u32).collect();
    let mut keep = first;
    while keep + 1 < n {
        merge_two_internal_twins(level, keep, keep + 1);
        merge_target[keep + 1] = keep as u32;
        keep += 2;
    }
    compact_explicit_level(level, &merge_target);
}

#[test]
fn contraction_garbage_is_swept_leaving_content_identical() {
    let n = TddLevel::PAIRS_COMPACT_MIN_DEAD;
    let mut level = TddLevel::new();
    // Two nodes that survive both rounds untouched: one in the side table,
    // since its left reference cannot be inlined, and one inline.
    level.push_internal_node(&[pair(1 << 31, 7)]);
    level.push_internal_node(&[pair(3, 4)]);
    let first_multi = level.nodes.len();
    for i in 0..n {
        level.push_internal_node(&[pair(i as u32, 0), pair(i as u32, 1)]);
    }

    merge_adjacent_round(&mut level, first_multi);
    merge_adjacent_round(&mut level, first_multi);

    let before = content(&level);
    let before_len = level.pairs.len();
    let live = live_pairs(&level);
    assert!(live < before_len, "the merge rounds must leave dead arena behind");
    assert!(
        level.compact_pairs_if_stale(),
        "{} dead slots in a {before_len}-slot arena must trip the compaction trigger",
        level.dead_pairs,
    );
    assert_eq!(
        content(&level),
        before,
        "the sweep must preserve every node's pair slice and its order",
    );
    assert!(
        level.pairs.len() < before_len,
        "the arena must shrink: {} slots, was {before_len}",
        level.pairs.len(),
    );
    assert_eq!(level.pairs.len(), live, "the swept arena must hold exactly the live pairs");
    assert_eq!(level.dead_pairs, 0, "the sweep must reset the garbage count");
    // Nothing left to reclaim, so the trigger must not fire again.
    assert!(!level.compact_pairs_if_stale());
}

#[test]
fn only_much_spare_room_is_given_back() {
    assert!(!has_slack(3, 12));
    assert!(has_slack(3, 13));
    assert!(!has_slack(0, 0));
    assert!(has_slack(0, 1));
    let mut level = TddLevel::new();
    level.pairs.push(InputPair { left: LocalNodeIdx(1), right: LocalNodeIdx(0) });
    level.pairs.reserve_exact(100);
    level.ext.reserve_exact(100);
    level.shrink_arrays();
    assert_eq!(level.pairs, vec![InputPair { left: LocalNodeIdx(1), right: LocalNodeIdx(0) }]);
    assert!(level.pairs.capacity() < 100);
    assert!(level.ext.capacity() < 100);
}
