use sffs::benchmark::{
    best_profile, median_nanos, sort_ascending, validate_summary, BenchmarkConfig,
    BenchmarkProfile, FixtureExpectation, ScenarioKind,
};
use sffs::cli::Args;
use sffs::fixture::{fixture_plan, pattern_chunk, FixtureStep, PATTERN_CHUNK_SIZE};
use sffs::scan::ScanSummary;
use std::path::PathBuf;
use std::time::Duration;

fn summary(size: u64, files: u64, dirs: u64) -> ScanSummary {
    ScanSummary {
        total_size: size,
        total_files: files,
        total_dirs: dirs,
        duration: Duration::from_millis(20),
        top_files: Vec::new(),
    }
}

fn expectation(size: u64, files: u64, dirs: u64) -> FixtureExpectation {
    FixtureExpectation {
        slug: "tiny-files".to_string(),
        label: "Many tiny files".to_string(),
        total_size: size,
        total_files: files,
        total_dirs: dirs,
    }
}

#[test]
fn scenario_names() {
    assert_eq!(ScenarioKind::TinyFiles.slug(), "tiny-files");
    assert_eq!(ScenarioKind::MixedTree.slug(), "mixed-tree");
    assert_eq!(ScenarioKind::WideTree.label(), "Wide directory fan-out");
    assert_eq!(ScenarioKind::LargeFiles.label(), "Few large files");
    assert_eq!(ScenarioKind::ALL.len(), 5);
}

#[test]
fn entries_are_files_plus_dirs() {
    assert_eq!(summary(2_048, 4, 2).total_entries(), 6);
    assert_eq!(expectation(0, 2000, 41).total_entries(), 2041);
}

#[test]
fn default_config() {
    let config = BenchmarkConfig::default();
    assert_eq!(config.warmup_iterations, 1);
    assert_eq!(config.measurement_iterations, 6);
}

#[test]
fn summary_validation() {
    assert!(validate_summary(&summary(10, 2, 3), &expectation(10, 2, 3)).is_ok());
    assert_eq!(
        validate_summary(&summary(10, 2, 4), &expectation(10, 2, 3)),
        Err("unexpected summary for tiny-files: got size/files/dirs = 10/2/4, expected 10/2/3".to_string())
    );
    assert!(validate_summary(&summary(11, 2, 3), &expectation(10, 2, 3)).is_err());
    assert!(validate_summary(&summary(10, 1, 3), &expectation(10, 2, 3)).is_err());
}

#[test]
fn median_of_samples() {
    let mut samples = vec![30u128, 10, 20];
    assert_eq!(median_nanos(&mut samples), 20);
    assert_eq!(samples, vec![10, 20, 30]);
    let mut even = vec![4u128, 1, 3, 2];
    assert_eq!(median_nanos(&mut even), 3);
    let mut one = vec![7u128];
    assert_eq!(median_nanos(&mut one), 7);
    let mut v = vec![5u128, 5, 1, 9, 0];
    sort_ascending(&mut v);
    assert_eq!(v, vec![0, 1, 5, 5, 9]);
}

fn totals(kind: ScenarioKind) -> (u64, u64, u64) {
    let plan = fixture_plan(kind);
    let e = plan.expectation;
    (e.total_size, e.total_files, e.total_dirs)
}

#[test]
fn fixture_totals_match_the_scenarios() {
    let mut tiny = 0u64;
    for d in 0..40u64 {
        for f in 0..50u64 {
            tiny += 64 + ((d + f) % 7) * 8;
        }
    }
    assert_eq!(totals(ScenarioKind::TinyFiles), (tiny, 2000, 41));
    let deep: u64 = (0..32u64).map(|d| 256 + d * 17).sum();
    assert_eq!(totals(ScenarioKind::DeepTree), (deep, 32, 33));
    let mut wide = 0u64;
    for d in 0..200u64 {
        for f in 0..5u64 {
            wide += 384 + ((d + f) % 11) * 32;
        }
    }
    assert_eq!(totals(ScenarioKind::WideTree), (wide, 1000, 201));
    let large: u64 = (0..16u64).map(|i| 1_048_576 + i * 131_072).sum();
    assert_eq!(totals(ScenarioKind::LargeFiles), (large, 16, 5));
    let mut mixed = 0u64;
    for d in 0..12u64 {
        for l in 0..4u64 {
            for f in 0..8u64 {
                mixed += 1_024 + ((d * 4 + l + f) % 9) * 128;
            }
        }
        mixed += 16_384 + d * 1_024;
    }
    assert_eq!(totals(ScenarioKind::MixedTree), (mixed, 396, 61));
}

#[test]
fn fixture_plan_paths() {
    let plan = fixture_plan(ScenarioKind::MixedTree);
    assert_eq!(plan.expectation.slug, "mixed-tree");
    assert_eq!(plan.expectation.label, "Mixed realistic tree");
    match &plan.steps[0] {
        FixtureStep::Dir(p) => assert_eq!(p, "section-00"),
        _ => panic!("expected a directory"),
    }
    match &plan.steps[1] {
        FixtureStep::Dir(p) => assert_eq!(p, "section-00/leaf-00"),
        _ => panic!("expected a directory"),
    }
    match &plan.steps[2] {
        FixtureStep::File(p, size, seed) => {
            assert_eq!(p, "section-00/leaf-00/item-00.txt");
            assert_eq!(*size, 1_024);
            assert_eq!(*seed, 0);
        }
        _ => panic!("expected a file"),
    }
    let deep = fixture_plan(ScenarioKind::DeepTree);
    match &deep.steps[63] {
        FixtureStep::File(p, size, seed) => {
            assert!(p.starts_with("level-00/level-01/"));
            assert!(p.ends_with("level-31/payload.dat"));
            assert_eq!(*size, 256 + 31 * 17);
            assert_eq!(*seed, 31);
        }
        _ => panic!("expected a file"),
    }
    let tiny = fixture_plan(ScenarioKind::TinyFiles);
    match &tiny.steps[51 * 39 + 50] {
        FixtureStep::File(p, _, _) => assert_eq!(p, "batch-39/tiny-049.bin"),
        _ => panic!("expected a file"),
    }
    let wide = fixture_plan(ScenarioKind::WideTree);
    match &wide.steps[6 * 199] {
        FixtureStep::Dir(p) => assert_eq!(p, "node-199"),
        _ => panic!("expected a directory"),
    }
}

#[test]
fn benchmark_defaults() {
    let args = Args::benchmark_defaults(PathBuf::from("/tmp/x"), Some(2));
    assert_eq!(args.paths, vec![PathBuf::from("/tmp/x")]);
    assert_eq!(args.threads, Some(2));
    assert!(args.bytes && args.silent);
    assert!(!args.si && !args.follow_links && args.top.is_none());
}

#[test]
fn best_profile_prefers_default_on_ties() {
    assert_eq!(best_profile(10, 5), BenchmarkProfile::SingleThread);
    assert_eq!(best_profile(5, 5), BenchmarkProfile::Default);
    assert_eq!(best_profile(5, 10), BenchmarkProfile::Default);
    assert_eq!(BenchmarkProfile::Default.name(), "default");
    assert_eq!(BenchmarkProfile::SingleThread.name(), "threads-1");
}

#[test]
fn pattern_chunk_counts_up_from_the_seed() {
    let chunk = pattern_chunk(250);
    assert_eq!(chunk.len(), PATTERN_CHUNK_SIZE);
    assert_eq!(&chunk[..8], &[250, 251, 252, 253, 254, 255, 0, 1]);
    for (i, &b) in chunk.iter().enumerate() {
        assert_eq!(b, 250u8.wrapping_add(i as u8));
    }
}
