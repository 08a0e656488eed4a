use sffs::benchmark::ScenarioKind;
use sffs::fixture::{fixture_plan, FixtureStep};
use sffs::walker::{
    begin_listing, count_root_entry, estimate_without_listing, is_hidden_name,
    needs_parallelism_hint, should_walk_serial, HintSearch, LocalScan, WalkerStats,
    PARALLEL_ROOT_ENTRY_HINT_THRESHOLD,
};
use sffs::top::TopChange;

/// The estimate of a fixture root, with the entries directly below the root
/// taken from its plan in place of a directory listing.
fn fixture_root_estimate(kind: ScenarioKind) -> usize {
    if let Some(estimate) = estimate_without_listing(Some(true)) {
        return estimate;
    }
    let plan = fixture_plan(kind);
    let (mut total, settled) = begin_listing(true);
    if settled {
        return total;
    }
    for step in plan.steps.iter() {
        let path = match step {
            FixtureStep::Dir(p) => p,
            FixtureStep::File(p, _, _) => p,
        };
        if path.contains('/') {
            continue;
        }
        let (next, reached) = count_root_entry(total, false, is_hidden_name(Some(path)));
        total = next;
        if reached {
            break;
        }
    }
    total
}

/// The traversal choice for a single fixture root.
fn serial_for_fixture(kind: ScenarioKind, threads: Option<usize>) -> bool {
    let hint = if needs_parallelism_hint(threads) {
        let mut search = HintSearch::new(1);
        if !search.found() {
            search.add(fixture_root_estimate(kind));
        }
        search.found()
    } else {
        false
    };
    should_walk_serial(threads, hint)
}

#[test]
fn adaptive_mode_prefers_serial_for_deep_tree_fixture() {
    assert!(serial_for_fixture(ScenarioKind::DeepTree, None));
}

#[test]
fn adaptive_mode_prefers_parallel_for_tiny_files_fixture() {
    assert!(!serial_for_fixture(ScenarioKind::TinyFiles, None));
}

#[test]
fn default_mode_prefers_parallel_for_wide_tree_fixture() {
    assert!(!serial_for_fixture(ScenarioKind::WideTree, None));
}

#[test]
fn default_mode_prefers_serial_for_mixed_tree_fixture() {
    assert!(serial_for_fixture(ScenarioKind::MixedTree, None));
}

#[test]
fn explicit_thread_override_preserves_parallel_choice() {
    assert!(!serial_for_fixture(ScenarioKind::DeepTree, Some(4)));
}

#[test]
fn explicit_single_thread_override_forces_serial() {
    assert!(serial_for_fixture(ScenarioKind::TinyFiles, Some(1)));
}

#[test]
fn walk_choice_from_plain_values() {
    assert!(should_walk_serial(Some(0), true));
    assert!(should_walk_serial(Some(1), true));
    assert!(!should_walk_serial(Some(2), false));
    assert!(should_walk_serial(None, false));
    assert!(!should_walk_serial(None, true));
    assert!(needs_parallelism_hint(None));
    assert!(!needs_parallelism_hint(Some(3)));
    assert!(HintSearch::new(4).found());
    assert!(!HintSearch::new(3).found());
}

#[test]
fn root_estimates() {
    assert_eq!(estimate_without_listing(None), Some(PARALLEL_ROOT_ENTRY_HINT_THRESHOLD));
    assert_eq!(estimate_without_listing(Some(false)), Some(1));
    assert_eq!(estimate_without_listing(Some(true)), None);
    assert_eq!(count_root_entry(5, true, true), (5, false));
    assert_eq!(count_root_entry(5, false, true), (6, false));
    assert_eq!(count_root_entry(31, true, false), (32, true));
    assert_eq!(begin_listing(true), (1, false));
    assert_eq!(begin_listing(false), (PARALLEL_ROOT_ENTRY_HINT_THRESHOLD, true));
}

#[test]
fn hidden_names() {
    assert!(is_hidden_name(Some(".git")));
    assert!(!is_hidden_name(Some("src")));
    assert!(!is_hidden_name(Some("")));
    assert!(!is_hidden_name(None));
}

#[test]
fn local_scan_counts_entries() {
    let mut local = LocalScan::new(Some(1));
    assert!(matches!(local.process_entry(Some(true), None, 0, 0), TopChange::Rejected));
    assert!(matches!(local.process_entry(None, Some((true, 0)), 1, 1), TopChange::Rejected));
    assert!(local.drop_candidates(7).is_empty());
    assert!(matches!(local.process_entry(Some(false), Some((false, 7)), 2, 2), TopChange::Inserted));
    assert_eq!(local.drop_candidates(9), vec![2]);
    assert!(local.drop_candidates(7).is_empty());
    assert!(matches!(local.process_entry(Some(false), Some((false, 9)), 3, 2), TopChange::Replaced(2)));
    assert!(matches!(local.process_entry(Some(false), None, 4, 4), TopChange::Rejected));
    assert_eq!((local.local_size, local.local_files, local.local_dirs), (16, 2, 2));
    assert!(local.has_room(u64::MAX - 16));
    assert!(!local.has_room(u64::MAX - 15));

    let mut stats = WalkerStats::new(true);
    stats.absorb(local);
    stats.absorb(LocalScan::new(Some(3)));
    assert_eq!((stats.total_size, stats.total_files, stats.total_dirs), (16, 2, 2));
    assert_eq!(stats.top_files, Some(vec![vec![(9, 3)]]));

    let mut no_top = WalkerStats::new(false);
    let mut other = LocalScan::new(None);
    assert!(other.drop_candidates(1).is_empty());
    other.process_entry(None, Some((false, u64::MAX)), 0, 0);
    no_top.total_size = 5;
    no_top.absorb(other);
    assert_eq!(no_top.total_size, 4);
    assert_eq!(no_top.top_files, None);
}

#[test]
fn hint_search_adds_root_estimates() {
    let mut search = HintSearch::new(2);
    assert!(!search.found());
    search.add(20);
    assert!(!search.found());
    search.add(11);
    assert!(!search.found());
    let mut other = HintSearch::new(1);
    other.add(20);
    other.add(12);
    assert!(other.found());
    let mut unreadable = HintSearch::new(1);
    unreadable.add(PARALLEL_ROOT_ENTRY_HINT_THRESHOLD);
    assert!(unreadable.found());
}

#[test]
fn totals_do_not_depend_on_the_thread_split() {
    let entries: Vec<(Option<bool>, Option<(bool, u64)>)> = vec![
        (Some(true), None),
        (Some(false), Some((false, 10))),
        (None, Some((true, 0))),
        (Some(false), Some((false, 7))),
        (Some(false), None),
        (Some(false), Some((false, u64::MAX - 5))),
    ];
    let run = |split: &[&[usize]]| {
        let mut stats = WalkerStats::new(false);
        for part in split {
            let mut local = LocalScan::new(None);
            for &i in part.iter() {
                let (t, m) = entries[i];
                local.process_entry(t, m, i as u64, i as u64);
            }
            stats.absorb(local);
        }
        (stats.total_size, stats.total_files, stats.total_dirs)
    };
    let serial = run(&[&[0, 1, 2, 3, 4]]);
    assert_eq!(serial, (17, 2, 2));
    assert_eq!(run(&[&[3, 0], &[4, 2, 1]]), serial);
    assert_eq!(run(&[&[2], &[1], &[], &[0, 4, 3]]), serial);
    // With a file near 2^64 bytes the totals wrap around, whatever the split.
    assert_eq!(run(&[&[0, 1, 2, 3, 4], &[5]]), (11, 3, 2));
    assert_eq!(run(&[&[5], &[3, 4], &[0, 1, 2]]), (11, 3, 2));
}

/// Steps a whole listing with the library's steps, stopping at the threshold.
fn listed_estimate(ignore_hidden: bool, hidden: &[bool]) -> usize {
    let (mut total, settled) = begin_listing(true);
    if settled {
        return total;
    }
    for &h in hidden {
        let (next, reached) = count_root_entry(total, ignore_hidden, h);
        total = next;
        if reached {
            break;
        }
    }
    total
}

#[test]
fn root_estimate_is_visible_entries_plus_one_capped() {
    let flags = [false, true, false, true, true];
    assert_eq!(listed_estimate(false, &flags), 6);
    assert_eq!(listed_estimate(true, &flags), 3);
    assert_eq!(listed_estimate(true, &[]), 1);
    let many = vec![false; 100];
    assert_eq!(listed_estimate(false, &many), PARALLEL_ROOT_ENTRY_HINT_THRESHOLD);
    let mut mixed = vec![true; 40];
    mixed.extend(vec![false; 30]);
    assert_eq!(listed_estimate(true, &mixed), 31);
    assert_eq!(listed_estimate(false, &mixed), PARALLEL_ROOT_ENTRY_HINT_THRESHOLD);
}

#[test]
fn scan_summary_clones() {
    let s = sffs::scan::ScanSummary {
        total_size: 3,
        total_files: 1,
        total_dirs: 1,
        duration: std::time::Duration::from_millis(7),
        top_files: vec![(3, std::path::PathBuf::from("a"))],
    };
    let c = s.clone();
    assert_eq!((c.total_size, c.total_files, c.total_dirs, c.duration), (3, 1, 1, s.duration));
    assert_eq!(c.top_files, s.top_files);
}
