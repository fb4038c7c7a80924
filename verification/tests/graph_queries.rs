use std::sync::Arc;

use position_index::hex_util::common_hex_len;
use position_index::position_index::IndexModel;
use position_index::{
    all_head_positions, all_heads, common_ancestor_positions, common_ancestors, heads,
    heads_from_range_and_filter, heads_positions, is_ancestor, is_ancestor_positions, search_range,
    ChangeId, CommitId, GlobalPosition, HexPrefix, IndexError, IndexGraphEntry, IndexResult,
    PositionIndex, PrefixResolution, RecordedFilter, RepoPathBuf,
};

/// An index in memory.
struct MemoryIndex {
    entries: Vec<IndexGraphEntry>,
    unreadable: Vec<u32>,
}

impl PositionIndex for MemoryIndex {
    // Only contracts speak of the model; nothing runs it.
    fn model(&self) -> IndexModel {
        unreachable!()
    }

    fn num_commits(&self) -> u32 {
        self.entries.len() as u32
    }

    fn position_by_commit_id(&self, id: &CommitId) -> IndexResult<Option<GlobalPosition>> {
        if id.as_bytes().is_empty() {
            return Err(IndexError::Other("empty id".to_string()));
        }
        Ok(self
            .entries
            .iter()
            .position(|entry| entry.commit_id == *id)
            .map(|position| GlobalPosition(position as u32)))
    }

    fn entry_by_position(&self, position: GlobalPosition) -> IndexResult<IndexGraphEntry> {
        if self.unreadable.contains(&position.0) {
            return Err(IndexError::Other(format!("unreadable {}", position.0)));
        }
        match self.entries.get(position.0 as usize) {
            Some(entry) => Ok(entry.clone()),
            None => Err(IndexError::Other(format!("no entry {}", position.0))),
        }
    }

    fn resolve_commit_id_prefix(
        &self,
        _prefix: &HexPrefix,
    ) -> IndexResult<PrefixResolution<CommitId>> {
        Ok(PrefixResolution::NoMatch)
    }

    fn resolve_change_id_prefix(
        &self,
        prefix: &HexPrefix,
    ) -> IndexResult<PrefixResolution<Vec<GlobalPosition>>> {
        let mut positions: Vec<GlobalPosition> = Vec::new();
        for (i, entry) in self.entries.iter().enumerate().rev() {
            if entry.change_id.as_bytes() == prefix.min_prefix_bytes.as_slice() {
                positions.push(GlobalPosition(i as u32));
            }
        }
        if positions.is_empty() {
            Ok(PrefixResolution::NoMatch)
        } else {
            Ok(PrefixResolution::SingleMatch(positions))
        }
    }

    fn changed_paths(&self, _position: GlobalPosition) -> IndexResult<Option<Vec<RepoPathBuf>>> {
        Ok(None)
    }
}

fn pos(n: u32) -> GlobalPosition {
    GlobalPosition(n)
}

fn all(ns: &[u32]) -> Vec<GlobalPosition> {
    ns.iter().map(|&n| GlobalPosition(n)).collect()
}

fn id(n: u32) -> CommitId {
    CommitId::new(vec![0xc0, n as u8])
}

fn ids(ns: &[u32]) -> Vec<CommitId> {
    ns.iter().map(|&n| id(n)).collect()
}

/// An index whose commits have these parents.
fn index_of(parents: &[&[u32]]) -> MemoryIndex {
    let mut entries: Vec<IndexGraphEntry> = Vec::new();
    for (i, parents) in parents.iter().enumerate() {
        let mut generation_number: u32 = 0;
        for &parent in parents.iter() {
            if let Some(entry) = entries.get(parent as usize) {
                let entry: &IndexGraphEntry = entry;
                generation_number = generation_number.max(entry.generation_number + 1);
            }
        }
        entries.push(IndexGraphEntry {
            commit_id: id(i as u32),
            change_id: ChangeId::new(vec![(i / 2) as u8]),
            generation_number,
            parent_positions: all(parents),
        });
    }
    MemoryIndex { entries, unreadable: Vec::new() }
}

/// 0 is below 1 and 2, which are below 3; 4 stands alone.
fn diamond() -> MemoryIndex {
    index_of(&[&[], &[0], &[0], &[1, 2], &[]])
}

/// Both 3 and 4 are children of both 1 and 2.
fn criss_cross() -> MemoryIndex {
    index_of(&[&[], &[0], &[0], &[1, 2], &[2, 1], &[3], &[4]])
}

fn other(text: &str) -> IndexError {
    IndexError::Other(text.to_string())
}

/// An error of the caller's own.
#[derive(Debug, PartialEq)]
enum SearchError {
    Index(IndexError),
    Refused(u32),
}

impl From<IndexError> for SearchError {
    fn from(error: IndexError) -> Self {
        SearchError::Index(error)
    }
}

/// Runs the search and returns its result and the calls of the filter.
fn search(
    index: &MemoryIndex,
    roots: &[u32],
    starts: &[u32],
    range: std::ops::Range<u32>,
    keep: &[u32],
) -> (Result<Vec<GlobalPosition>, SearchError>, Vec<u32>) {
    let mut asked: Vec<u32> = Vec::new();
    let result = heads_from_range_and_filter(
        index,
        all(roots),
        all(starts),
        &range,
        |position: GlobalPosition| {
            asked.push(position.0);
            if position.0 == 99 {
                return Err(SearchError::Refused(99));
            }
            Ok(keep.contains(&position.0))
        },
    );
    (result, asked)
}

#[test]
fn lowest_and_sentinel_positions() {
    assert_eq!(GlobalPosition::lowest(), GlobalPosition(0));
    assert_eq!(GlobalPosition::sentinel(), GlobalPosition(4294967295));
    assert!(GlobalPosition::lowest() < GlobalPosition::sentinel());
}

#[test]
fn common_hex_digits() {
    assert_eq!(common_hex_len(&[0x12, 0x34], &[0x12, 0x3f]), 3);
    assert_eq!(common_hex_len(&[0x12, 0x34], &[0x12, 0x44]), 2);
    assert_eq!(common_hex_len(&[0x12], &[0x12, 0x34]), 2);
    assert_eq!(common_hex_len(&[0x12, 0x34], &[0x12]), 2);
    assert_eq!(common_hex_len(&[0x12], &[0x12]), 2);
    assert_eq!(common_hex_len(&[0xab], &[0xcb]), 0);
    assert_eq!(common_hex_len(&[0xab], &[0xac]), 1);
    assert_eq!(common_hex_len(&[], &[0xab]), 0);
}

#[test]
fn ancestors_in_a_diamond() {
    let index = diamond();
    for (ancestor, descendant, expected) in [
        (0, 3, true),
        (1, 3, true),
        (2, 3, true),
        (3, 3, true),
        (3, 0, false),
        (1, 2, false),
        (2, 1, false),
        (4, 3, false),
        (0, 4, false),
        (4, 4, true),
    ] {
        assert_eq!(is_ancestor_positions(&index, pos(ancestor), pos(descendant)), Ok(expected));
        assert_eq!(is_ancestor(&index, &id(ancestor), &id(descendant)), Ok(expected));
    }
}

#[test]
fn ancestry_is_transitive_and_antisymmetric() {
    let index = criss_cross();
    for a in 0..7 {
        for b in 0..7 {
            let below = is_ancestor_positions(&index, pos(a), pos(b)).unwrap();
            let above = is_ancestor_positions(&index, pos(b), pos(a)).unwrap();
            assert!(!(below && above) || a == b);
            for c in 0..7 {
                if below && is_ancestor_positions(&index, pos(b), pos(c)).unwrap() {
                    assert_eq!(is_ancestor_positions(&index, pos(a), pos(c)), Ok(true));
                }
            }
        }
    }
}

#[test]
fn ancestors_of_unknown_commits() {
    let index = diamond();
    assert_eq!(is_ancestor(&index, &id(9), &id(3)), Err(IndexError::CommitNotFound(id(9))));
    assert_eq!(is_ancestor(&index, &id(3), &id(8)), Err(IndexError::CommitNotFound(id(8))));
    assert_eq!(is_ancestor(&index, &id(9), &id(8)), Err(IndexError::CommitNotFound(id(9))));
    assert_eq!(is_ancestor(&index, &CommitId::new(vec![]), &id(3)), Err(other("empty id")));
    assert_eq!(is_ancestor_positions(&index, pos(9), pos(3)), Err(other("no entry 9")));
    assert_eq!(is_ancestor_positions(&index, pos(3), pos(9)), Err(other("no entry 9")));
}

#[test]
fn ancestor_search_reads_only_what_it_needs() {
    let mut index = diamond();
    index.unreadable = vec![1];
    assert_eq!(is_ancestor_positions(&index, pos(2), pos(3)), Ok(true));
    assert_eq!(is_ancestor_positions(&index, pos(1), pos(2)), Err(other("unreadable 1")));
    // The last parent is visited first.
    assert_eq!(is_ancestor_positions(&index, pos(0), pos(3)), Ok(true));
    index.unreadable = vec![2];
    assert_eq!(is_ancestor_positions(&index, pos(0), pos(3)), Err(other("unreadable 2")));
}

#[test]
fn ancestor_search_stops_at_the_generation() {
    let mut index = diamond();
    // The search does not go on from an entry whose generation is not higher.
    index.entries[3].generation_number = 1;
    assert_eq!(is_ancestor_positions(&index, pos(1), pos(3)), Ok(false));
    assert_eq!(is_ancestor_positions(&index, pos(0), pos(3)), Ok(true));
}

#[test]
fn heads_among_candidates() {
    let index = diamond();
    assert_eq!(heads_positions(&index, all(&[])), Ok(all(&[])));
    assert_eq!(heads_positions(&index, all(&[0])), Ok(all(&[0])));
    assert_eq!(heads_positions(&index, all(&[0, 1, 2])), Ok(all(&[2, 1])));
    assert_eq!(heads_positions(&index, all(&[0, 3, 1, 2])), Ok(all(&[3])));
    assert_eq!(heads_positions(&index, all(&[4, 0, 3])), Ok(all(&[4, 3])));
    assert_eq!(heads_positions(&index, all(&[0, 4, 0, 4])), Ok(all(&[4, 0])));
}

#[test]
fn heads_do_not_depend_on_order_or_repetition() {
    let index = criss_cross();
    let expected = Ok(all(&[6, 3]));
    assert_eq!(heads_positions(&index, all(&[1, 3, 4, 6])), expected);
    assert_eq!(heads_positions(&index, all(&[6, 4, 3, 1])), expected);
    assert_eq!(heads_positions(&index, all(&[3, 6, 1, 3, 4, 6, 1])), expected);
}

#[test]
fn heads_of_heads_are_the_same() {
    let index = criss_cross();
    for bits in 0u32..128 {
        let candidates: Vec<u32> = (0..7).filter(|n| bits & (1 << n) != 0).collect();
        let found = heads_positions(&index, all(&candidates)).unwrap();
        assert_eq!(heads_positions(&index, found.clone()), Ok(found.clone()));
        // Every candidate is an ancestor of a head, and no head of another one.
        for &candidate in &candidates {
            assert!(found
                .iter()
                .any(|&head| is_ancestor_positions(&index, pos(candidate), head).unwrap()));
        }
        for &first in &found {
            for &second in &found {
                assert_eq!(is_ancestor_positions(&index, first, second), Ok(first == second));
            }
        }
        // The heads of a set are its best common ancestors with itself.
        assert_eq!(
            common_ancestor_positions(&index, all(&candidates), all(&candidates)),
            Ok(found.clone())
        );
        // They are the heads of what is below the set.
        let (range_heads, _) = search(&index, &[], &candidates, 0..u32::MAX, &[0, 1, 2, 3, 4, 5, 6]);
        assert_eq!(range_heads, Ok(found));
    }
}

#[test]
fn heads_by_id() {
    let index = diamond();
    let candidates = ids(&[0, 4, 1, 2]);
    assert_eq!(heads(&index, &mut candidates.iter()), Ok(ids(&[4, 2, 1])));
    assert_eq!(heads(&index, &mut [].iter()), Ok(vec![]));
    let dynamic: &mut dyn Iterator<Item = &CommitId> = &mut candidates.iter();
    assert_eq!(heads(&index, dynamic), Ok(ids(&[4, 2, 1])));
}

#[test]
fn errors_of_the_first_failed_read() {
    let mut index = index_of(&[&[], &[0], &[1], &[2], &[3]]);
    index.unreadable = vec![1, 3];
    // The candidates are read from the highest down.
    assert_eq!(heads_positions(&index, all(&[1, 3, 4])), Err(other("unreadable 3")));
    assert_eq!(heads_positions(&index, all(&[1, 4])), Err(other("unreadable 1")));
    // The commits are read from the lowest up.
    assert_eq!(all_head_positions(&index), Err(other("unreadable 1")));
    // The ancestor is read first, whatever the descendant is.
    for descendant in [0, 1, 2, 3, 4, 9] {
        assert_eq!(
            is_ancestor_positions(&index, pos(1), pos(descendant)),
            Err(other("unreadable 1"))
        );
    }
    // The higher of two walks goes on first.
    assert_eq!(
        common_ancestor_positions(&index, all(&[4]), all(&[1])),
        Err(other("unreadable 3"))
    );
    // What is left out is read before what is wanted.
    let (found, asked) = search(&index, &[3], &[1], 0..u32::MAX, &[]);
    assert_eq!(found, Err(SearchError::Index(other("unreadable 3"))));
    assert_eq!(asked, Vec::<u32>::new());
}

#[test]
fn ancestor_search_goes_from_the_last_parent_to_the_first() {
    let mut index = index_of(&[&[], &[0], &[0], &[0], &[1, 2, 3]]);
    index.unreadable = vec![1, 2, 3];
    assert_eq!(is_ancestor_positions(&index, pos(0), pos(4)), Err(other("unreadable 3")));
    index.unreadable = vec![1, 2];
    assert_eq!(is_ancestor_positions(&index, pos(0), pos(4)), Ok(true));
}

#[test]
fn heads_take_all_ids_before_the_search_fails() {
    let mut index = diamond();
    index.unreadable = vec![1];
    let candidates = ids(&[0, 1, 2]);
    let mut iter = candidates.iter();
    assert_eq!(heads(&index, &mut iter), Err(other("unreadable 1")));
    assert_eq!(iter.next(), None);
}

#[test]
fn heads_take_ids_up_to_the_first_unknown_one() {
    let index = diamond();
    let candidates = ids(&[0, 9, 1, 8]);
    let mut iter = candidates.iter();
    assert_eq!(heads(&index, &mut iter), Err(IndexError::CommitNotFound(id(9))));
    assert_eq!(iter.next(), Some(&id(1)));
}

#[test]
fn heads_report_invalid_parents_and_failed_reads() {
    let index = index_of(&[&[], &[0], &[2], &[2, 5]]);
    let mut broken = index_of(&[&[], &[0], &[0], &[1, 2]]);
    assert_eq!(heads_positions(&index, all(&[2])), Ok(all(&[2])));
    let mut looped = index_of(&[&[], &[0], &[1], &[2]]);
    looped.entries[2].parent_positions = all(&[2]);
    assert_eq!(
        heads_positions(&looped, all(&[0, 2])),
        Err(IndexError::InvalidParentPosition { parent: pos(2), child: pos(2) })
    );
    broken.unreadable = vec![2];
    assert_eq!(heads_positions(&broken, all(&[0, 3])), Err(other("unreadable 2")));
    assert_eq!(heads_positions(&broken, all(&[3, 2])), Err(other("unreadable 2")));
    assert_eq!(heads_positions(&broken, all(&[3])), Ok(all(&[3])));
    assert_eq!(heads_positions(&broken, all(&[7])), Err(other("no entry 7")));
}

#[test]
fn best_common_ancestors() {
    let index = diamond();
    assert_eq!(common_ancestor_positions(&index, all(&[1]), all(&[2])), Ok(all(&[0])));
    assert_eq!(common_ancestor_positions(&index, all(&[1]), all(&[3])), Ok(all(&[1])));
    assert_eq!(common_ancestor_positions(&index, all(&[3]), all(&[4])), Ok(all(&[])));
    assert_eq!(common_ancestor_positions(&index, all(&[]), all(&[3])), Ok(all(&[])));
    assert_eq!(common_ancestor_positions(&index, all(&[3]), all(&[])), Ok(all(&[])));
    assert_eq!(common_ancestor_positions(&index, all(&[1, 2, 1]), all(&[3])), Ok(all(&[2, 1])));
    assert_eq!(common_ancestor_positions(&index, all(&[1, 4]), all(&[4, 2])), Ok(all(&[4, 0])));
}

#[test]
fn criss_cross_has_two_best_common_ancestors() {
    let index = criss_cross();
    assert_eq!(common_ancestor_positions(&index, all(&[5]), all(&[6])), Ok(all(&[2, 1])));
    assert_eq!(common_ancestors(&index, &ids(&[5]), &ids(&[6])), Ok(ids(&[2, 1])));
}

#[test]
fn common_ancestors_are_symmetric() {
    let index = criss_cross();
    for a in 0..7 {
        for b in 0..7 {
            let best = common_ancestor_positions(&index, all(&[a]), all(&[b])).unwrap();
            assert_eq!(common_ancestor_positions(&index, all(&[b]), all(&[a])), Ok(best.clone()));
            assert_eq!(
                best == all(&[a]),
                is_ancestor_positions(&index, pos(a), pos(b)).unwrap()
            );
            assert_eq!(
                common_ancestors(&index, &ids(&[a]), &ids(&[b])),
                common_ancestors(&index, &ids(&[b]), &ids(&[a]))
            );
        }
    }
}

#[test]
fn common_ancestors_of_unknown_commits() {
    let index = diamond();
    assert_eq!(
        common_ancestors(&index, &ids(&[1, 9]), &ids(&[8])),
        Err(IndexError::CommitNotFound(id(9)))
    );
    assert_eq!(
        common_ancestors(&index, &ids(&[1]), &ids(&[8])),
        Err(IndexError::CommitNotFound(id(8)))
    );
}

#[test]
fn common_ancestors_report_invalid_parents() {
    let mut index = diamond();
    index.entries[3].parent_positions = all(&[1, 3]);
    assert_eq!(
        common_ancestor_positions(&index, all(&[3]), all(&[0])),
        Err(IndexError::InvalidParentPosition { parent: pos(3), child: pos(3) })
    );
    // The entry is not read when the walks meet on it.
    assert_eq!(common_ancestor_positions(&index, all(&[3]), all(&[3])), Ok(all(&[3])));
    index.unreadable = vec![3];
    assert_eq!(
        common_ancestor_positions(&index, all(&[2]), all(&[3])),
        Err(other("unreadable 3"))
    );
}

#[test]
fn heads_among_all_commits() {
    let index = diamond();
    assert_eq!(all_head_positions(&index), Ok(all(&[3, 4])));
    assert_eq!(all_heads(&index), Ok(ids(&[3, 4])));
    assert_eq!(all_head_positions(&index_of(&[])), Ok(all(&[])));
    let mut heads = heads_positions(&index, all(&[0, 1, 2, 3, 4])).unwrap();
    heads.reverse();
    assert_eq!(all_head_positions(&index), Ok(heads));
    let mut broken = diamond();
    broken.unreadable = vec![1, 2];
    assert_eq!(all_head_positions(&broken), Err(other("unreadable 1")));
    assert_eq!(all_heads(&broken), Err(other("unreadable 1")));
}

#[test]
fn range_heads_with_filter() {
    let index = criss_cross();
    let (found, asked) = search(&index, &[], &[5, 6], 0..u32::MAX, &[0, 1, 2, 3, 4, 5, 6]);
    assert_eq!(found, Ok(all(&[6, 5])));
    assert_eq!(asked, vec![6, 5]);
    let (found, asked) = search(&index, &[], &[6, 5, 6], 0..u32::MAX, &[1, 3]);
    assert_eq!(found, Ok(all(&[3])));
    assert_eq!(asked, vec![6, 5, 4, 3]);
    let (found, asked) = search(&index, &[], &[5], 0..u32::MAX, &[0]);
    assert_eq!(found, Ok(all(&[0])));
    assert_eq!(asked, vec![5, 3, 2, 1, 0]);
}

#[test]
fn range_heads_are_the_same_each_time() {
    let index = criss_cross();
    for bits in 0u32..128 {
        let keep: Vec<u32> = (0..7).filter(|n| bits & (1 << n) != 0).collect();
        let first = search(&index, &[1], &[5, 6], 0..u32::MAX, &keep);
        assert_eq!(search(&index, &[1, 0, 1], &[6, 5, 5], 0..u32::MAX, &keep), first);
        // The heads of what the filter keeps of the range.
        let kept: Vec<u32> =
            keep.iter().copied().filter(|&n| [2, 3, 4, 5, 6].contains(&n)).collect();
        assert_eq!(first.0.unwrap(), heads_positions(&index, all(&kept)).unwrap());
    }
}

#[test]
fn heads_by_id_are_candidates() {
    let index = criss_cross();
    for bits in 0u32..128 {
        let numbers: Vec<u32> = (0..7).filter(|n| bits & (1 << n) != 0).collect();
        let candidates = ids(&numbers);
        let found = heads(&index, &mut candidates.iter()).unwrap();
        assert!(found.iter().all(|head| candidates.contains(head)));
        assert_eq!(heads(&index, &mut candidates.iter()), Ok(found));
    }
}

#[test]
fn searches_do_not_look_below_the_lowest_candidate() {
    let mut index = index_of(&[&[], &[0], &[1], &[2], &[3]]);
    index.unreadable = vec![0];
    index.entries[1].parent_positions = all(&[1]);
    assert_eq!(heads_positions(&index, all(&[2, 4])), Ok(all(&[4])));
    assert_eq!(common_ancestor_positions(&index, all(&[2]), all(&[4])), Ok(all(&[2])));
    assert_eq!(
        common_ancestor_positions(&index, all(&[4]), all(&[0])),
        Err(IndexError::InvalidParentPosition { parent: pos(1), child: pos(1) })
    );
    let (found, _) = search(&index, &[], &[4], 0..u32::MAX, &[2]);
    assert_eq!(found, Ok(all(&[2])));
}

#[test]
fn recorded_filters_are_asked_as_plain_ones() {
    let index = criss_cross();
    let mut asked: Vec<u32> = Vec::new();
    let mut filter = RecordedFilter::new(|position: GlobalPosition| {
        asked.push(position.0);
        Ok::<bool, SearchError>(position.0 == 3)
    });
    let range = 0..u32::MAX;
    let found = search_range(&index, &[], &all(&[6, 5, 6]), &range, &mut filter);
    assert_eq!(found, Ok(all(&[3])));
    // The same filter serves another search.
    let found = search_range(&index, &all(&[1]), &all(&[2]), &range, &mut filter);
    assert_eq!(found, Ok(all(&[])));
    assert_eq!(filter.ask(pos(3)), Ok(true));
    assert_eq!(asked, vec![6, 5, 4, 3, 2, 3]);
}

#[test]
fn commits_are_found_by_their_whole_id() {
    let index = diamond();
    for n in 0..5 {
        assert_eq!((&index).position_by_commit_id(&id(n)), Ok(Some(pos(n))));
        assert_eq!((&index).entry_by_position(pos(n)).unwrap().commit_id, id(n));
    }
    assert_eq!((&index).position_by_commit_id(&CommitId::new(vec![0xc0])), Ok(None));
    assert_eq!((&index).position_by_commit_id(&id(5)), Ok(None));
}

#[test]
fn range_heads_leave_out_ancestors_of_roots() {
    let index = criss_cross();
    let (found, asked) = search(&index, &[3], &[6], 0..u32::MAX, &[0, 1, 2]);
    assert_eq!(found, Ok(all(&[])));
    assert_eq!(asked, vec![6, 4]);
    let (found, asked) = search(&index, &[6], &[6], 0..u32::MAX, &[6]);
    assert_eq!(found, Ok(all(&[])));
    assert_eq!(asked, Vec::<u32>::new());
    let (found, asked) = search(&index, &[5], &[], 0..u32::MAX, &[5]);
    assert_eq!(found, Ok(all(&[])));
    assert_eq!(asked, Vec::<u32>::new());
}

#[test]
fn range_heads_follow_parents_in_range() {
    let index = criss_cross();
    // Only the first parent of each commit, so 6, 4, 2, 0.
    let (found, asked) = search(&index, &[], &[6], 0..1, &[1]);
    assert_eq!(found, Ok(all(&[])));
    assert_eq!(asked, vec![6, 4, 2, 0]);
    // Only the second parent of each commit; 6 has none.
    let (_, asked) = search(&index, &[], &[6, 4], 1..2, &[]);
    assert_eq!(asked, vec![6, 4, 1]);
    // No parent at all.
    let (_, asked) = search(&index, &[], &[6], 0..0, &[]);
    assert_eq!(asked, vec![6]);
    let (_, asked) = search(&index, &[], &[6], 7..9, &[]);
    assert_eq!(asked, vec![6]);
}

#[test]
fn range_search_reports_filter_errors() {
    let mut index = index_of(&[&[]]);
    while index.entries.len() < 100 {
        let last = index.entries.len() as u32 - 1;
        index.entries.push(IndexGraphEntry {
            commit_id: id(last + 1),
            change_id: ChangeId::new(vec![]),
            generation_number: last + 1,
            parent_positions: all(&[last]),
        });
    }
    let (found, asked) = search(&index, &[], &[98], 0..u32::MAX, &[97]);
    assert_eq!(found, Ok(all(&[97])));
    assert_eq!(asked, vec![98, 97]);
    let (found, asked) = search(&index, &[], &[99], 0..u32::MAX, &[97]);
    assert_eq!(found, Err(SearchError::Refused(99)));
    assert_eq!(asked, vec![99]);
}

#[test]
fn range_search_reports_index_errors() {
    let mut index = diamond();
    index.unreadable = vec![2];
    let (found, asked) = search(&index, &[], &[3], 0..u32::MAX, &[0]);
    assert_eq!(found, Err(SearchError::Index(other("unreadable 2"))));
    assert_eq!(asked, vec![3]);
    let (found, asked) = search(&index, &[2], &[1], 0..u32::MAX, &[0]);
    assert_eq!(found, Err(SearchError::Index(other("unreadable 2"))));
    assert_eq!(asked, Vec::<u32>::new());
    index.unreadable = vec![];
    index.entries[3].parent_positions = all(&[1, 3]);
    let invalid = IndexError::InvalidParentPosition { parent: pos(3), child: pos(3) };
    let (found, asked) = search(&index, &[], &[3], 0..u32::MAX, &[]);
    assert_eq!(found, Err(SearchError::Index(invalid)));
    assert_eq!(asked, vec![3]);
    // A parent out of range is not looked at.
    let (found, _) = search(&index, &[], &[3], 0..1, &[0]);
    assert_eq!(found, Ok(all(&[0])));
}

#[test]
fn references_and_handles_answer_as_the_index() {
    let index = diamond();
    let dynamic: &dyn PositionIndex = &index;
    assert_eq!(is_ancestor_positions(dynamic, pos(0), pos(3)), Ok(true));
    assert_eq!(heads_positions(dynamic, all(&[0, 1])), Ok(all(&[1])));
    assert_eq!((&dynamic).num_commits(), 5);
    let prefix = HexPrefix { min_prefix_bytes: vec![1], has_odd_byte: false };
    assert_eq!(
        (&index).resolve_change_id_prefix(&prefix),
        Ok(PrefixResolution::SingleMatch(all(&[3, 2])))
    );
    let handle: Arc<dyn PositionIndex> = Arc::new(diamond());
    assert_eq!(all_head_positions(&handle), Ok(all(&[3, 4])));
    assert_eq!(handle.position_by_commit_id(&id(2)), Ok(Some(pos(2))));
    assert_eq!(handle.entry_by_position(pos(2)).unwrap().parent_positions, all(&[0]));
    assert_eq!(handle.resolve_commit_id_prefix(&prefix), Ok(PrefixResolution::NoMatch));
    assert_eq!(
        handle.resolve_change_id_prefix(&prefix),
        Ok(PrefixResolution::SingleMatch(all(&[3, 2])))
    );
    assert_eq!(handle.changed_paths(pos(0)), Ok(None));
    assert_eq!(handle.num_commits(), 5);
}
