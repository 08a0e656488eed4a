use sffs::top::{merge_top_files, TopChange, TopFiles};

#[test]
fn merge_keeps_largest_in_descending_order() {
    let heaps = vec![vec![(5, 1), (1, 2)], vec![(9, 3), (5, 0)], vec![], vec![(7, 4)]];
    assert_eq!(merge_top_files(&heaps, 3), vec![(9, 3), (7, 4), (5, 1)]);
    assert_eq!(merge_top_files(&heaps, 10), vec![(9, 3), (7, 4), (5, 1), (5, 0), (1, 2)]);
    assert_eq!(merge_top_files(&heaps, 0), vec![]);
    assert_eq!(merge_top_files(&vec![], 4), vec![]);
}

#[test]
fn offer_replaces_smallest_only_when_strictly_larger() {
    let mut top = TopFiles::new(2);
    assert!(matches!(top.offer(10, 0, 0), TopChange::Inserted));
    assert!(matches!(top.offer(20, 1, 1), TopChange::Inserted));
    // Equal to the smallest kept size: rejected, whatever the named key.
    assert!(top.offer_candidates(10).is_empty());
    assert!(matches!(top.offer(10, 2, 0), TopChange::Rejected));
    assert!(matches!(top.offer(3, 3, 0), TopChange::Rejected));
    assert_eq!(top.offer_candidates(15), vec![0]);
    match top.offer(15, 4, 0) {
        TopChange::Replaced(key) => assert_eq!(key, 0),
        _ => panic!("expected a replacement"),
    }
    assert_eq!(top.to_vec(), vec![(20, 1), (15, 4)]);
    assert_eq!(top.len(), 2);
}

#[test]
fn offer_with_zero_limit_keeps_nothing() {
    let mut top = TopFiles::new(0);
    assert!(top.offer_candidates(100).is_empty());
    assert!(matches!(top.offer(100, 0, 0), TopChange::Rejected));
    assert!(matches!(top.push_pop(100, 1, 1), TopChange::Rejected));
    assert_eq!(top.len(), 0);
}

#[test]
fn push_bounded_evicts_lowest_rank() {
    let mut top = TopFiles::new(2);
    assert_eq!(top.push_bounded((4, 1)), None);
    assert_eq!(top.push_bounded((4, 7)), None);
    assert_eq!(top.push_bounded((4, 3)), Some((4, 1)));
    assert_eq!(top.push_bounded((1, 9)), Some((1, 9)));
    assert_eq!(top.to_vec(), vec![(4, 7), (4, 3)]);
}

#[test]
fn merge_does_not_depend_on_the_split() {
    let files = vec![(3, 0), (8, 1), (8, 2), (1, 3), (9, 4), (2, 5), (8, 6)];
    let one = vec![files.clone()];
    let many = vec![vec![files[6], files[0]], vec![files[1]], vec![files[5], files[4], files[3], files[2]]];
    assert_eq!(merge_top_files(&one, 4), merge_top_files(&many, 4));
    assert_eq!(merge_top_files(&one, 4), vec![(9, 4), (8, 6), (8, 2), (8, 1)]);
}

#[test]
fn thread_selection_then_merge_gives_the_largest_files() {
    let threads: Vec<Vec<(u64, u64)>> =
        vec![vec![(5, 0), (50, 1), (7, 2), (70, 3)], vec![(60, 4), (1, 5)], vec![(2, 6), (3, 7), (40, 8)]];
    let mut kept = Vec::new();
    for files in &threads {
        let mut top = TopFiles::new(3);
        for &(size, key) in files {
            let drop = top.offer_candidates(size).into_iter().min().unwrap_or(key);
            top.offer(size, key, drop);
        }
        kept.push(top.to_vec());
    }
    assert_eq!(merge_top_files(&kept, 3), vec![(70, 3), (60, 4), (50, 1)]);
}

#[test]
fn offer_evicts_the_named_file_among_the_smallest() {
    let mut top = TopFiles::new(3);
    top.offer(5, 10, 10);
    top.offer(5, 11, 11);
    top.offer(8, 12, 12);
    let mut candidates = top.offer_candidates(9);
    candidates.sort();
    assert_eq!(candidates, vec![10, 11]);
    assert_eq!(top.least_size(), Some(5));
    // The caller names key 11 (say, the file with the least path).
    assert!(matches!(top.offer(9, 13, 11), TopChange::Replaced(11)));
    assert_eq!(top.to_vec(), vec![(9, 13), (8, 12), (5, 10)]);
    // A key that names no smallest file: the lowest-ranked one leaves.
    assert!(matches!(top.offer(6, 14, 12), TopChange::Replaced(10)));
    assert_eq!(top.to_vec(), vec![(9, 13), (8, 12), (6, 14)]);
}

#[test]
fn push_pop_lets_ties_compete() {
    let mut top = TopFiles::new(2);
    assert!(matches!(top.push_pop(5, 0, 0), TopChange::Inserted));
    assert!(matches!(top.push_pop(7, 1, 1), TopChange::Inserted));
    assert_eq!(top.push_candidates(4), Vec::<u64>::new());
    assert_eq!(top.push_candidates(5), vec![0]);
    // As large as the smallest kept file: the named one of the two leaves.
    assert!(matches!(top.push_pop(5, 2, 0), TopChange::Replaced(0)));
    assert_eq!(top.to_vec(), vec![(7, 1), (5, 2)]);
    assert!(matches!(top.push_pop(5, 3, 3), TopChange::Rejected));
    assert!(matches!(top.push_pop(4, 4, 2), TopChange::Rejected));
    assert!(matches!(top.push_pop(6, 5, 2), TopChange::Replaced(2)));
    assert_eq!(top.to_vec(), vec![(7, 1), (6, 5)]);
    assert_eq!(TopFiles::new(1).least_size(), None);
}
