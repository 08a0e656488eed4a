//! Benchmark scenarios: the fixture trees they build and the totals a scan
//! of each tree must report.

use vstd::prelude::*;
use crate::scan::ScanSummary;
use crate::text::{decimal, push_decimal, push_str};

verus! {

/// The version of the benchmark reference format.
pub const BENCHMARK_SCHEMA_VERSION: u32 = 3;

/// The shapes of benchmark fixture trees.
#[derive(Debug, Clone, Copy, PartialEq, Eq, Structural)]
pub enum ScenarioKind {
    TinyFiles,
    DeepTree,
    WideTree,
    LargeFiles,
    MixedTree,
}

impl ScenarioKind {
    /// Every scenario, in the order in which benchmarks run them.
    pub const ALL: [ScenarioKind; 5] = [
        ScenarioKind::TinyFiles,
        ScenarioKind::DeepTree,
        ScenarioKind::WideTree,
        ScenarioKind::LargeFiles,
        ScenarioKind::MixedTree,
    ];

    /// The scenario's short name.
    pub open spec fn spec_slug(self) -> Seq<char> {
        match self {
            ScenarioKind::TinyFiles => "tiny-files"@,
            ScenarioKind::DeepTree => "deep-tree"@,
            ScenarioKind::WideTree => "wide-tree"@,
            ScenarioKind::LargeFiles => "large-files"@,
            ScenarioKind::MixedTree => "mixed-tree"@,
        }
    }

    /// The scenario's description.
    pub open spec fn spec_label(self) -> Seq<char> {
        match self {
            ScenarioKind::TinyFiles => "Many tiny files"@,
            ScenarioKind::DeepTree => "Deep directory tree"@,
            ScenarioKind::WideTree => "Wide directory fan-out"@,
            ScenarioKind::LargeFiles => "Few large files"@,
            ScenarioKind::MixedTree => "Mixed realistic tree"@,
        }
    }

    /// The scenario's short name, such as `tiny-files`.
    pub fn slug(self) -> (s: &'static str)
        ensures
            s@ == self.spec_slug(),
    {
        match self {
            ScenarioKind::TinyFiles => "tiny-files",
            ScenarioKind::DeepTree => "deep-tree",
            ScenarioKind::WideTree => "wide-tree",
            ScenarioKind::LargeFiles => "large-files",
            ScenarioKind::MixedTree => "mixed-tree",
        }
    }

    /// The scenario's description, such as `Many tiny files`.
    pub fn label(self) -> (s: &'static str)
        ensures
            s@ == self.spec_label(),
    {
        match self {
            ScenarioKind::TinyFiles => "Many tiny files",
            ScenarioKind::DeepTree => "Deep directory tree",
            ScenarioKind::WideTree => "Wide directory fan-out",
            ScenarioKind::LargeFiles => "Few large files",
            ScenarioKind::MixedTree => "Mixed realistic tree",
        }
    }
}

/// The totals that a scan of a fixture tree must report.
#[derive(Debug, Clone)]
pub struct FixtureExpectation {
    pub slug: String,
    pub label: String,
    pub total_size: u64,
    pub total_files: u64,
    pub total_dirs: u64,
}

impl FixtureExpectation {
    /// The number of entries: files plus directories.
    pub fn total_entries(&self) -> (n: u64)
        requires
            self.total_files + self.total_dirs <= u64::MAX,
        ensures
            n == self.total_files + self.total_dirs,
    {
        self.total_files + self.total_dirs
    }
}

/// How many times benchmarks run before and while measuring.
#[derive(Debug, Clone, Copy)]
pub struct BenchmarkConfig {
    pub warmup_iterations: usize,
    pub measurement_iterations: usize,
}

impl Default for BenchmarkConfig {
    /// One warm-up run and six measured runs.
    fn default() -> (c: BenchmarkConfig)
        ensures
            c.warmup_iterations == 1,
            c.measurement_iterations == 6,
    {
        BenchmarkConfig { warmup_iterations: 1, measurement_iterations: 6 }
    }
}

/// The message of a summary that does not match its fixture.
pub open spec fn mismatch_message(
    slug: Seq<char>,
    got: (u64, u64, u64),
    expected: (u64, u64, u64),
) -> Seq<char> {
    "unexpected summary for "@ + slug + ": got size/files/dirs = "@ + decimal(got.0 as nat) + "/"@
        + decimal(got.1 as nat) + "/"@ + decimal(got.2 as nat) + ", expected "@ + decimal(
        expected.0 as nat,
    ) + "/"@ + decimal(expected.1 as nat) + "/"@ + decimal(expected.2 as nat)
}

/// Checks that a scan reported exactly the size, file count and directory
/// count of the fixture; the error names both triples.
pub fn validate_summary(summary: &ScanSummary, expected: &FixtureExpectation) -> (r: Result<(), String>)
    ensures
        r is Ok <==> (summary.total_size == expected.total_size && summary.total_files
            == expected.total_files && summary.total_dirs == expected.total_dirs),
        r matches Err(msg) ==> msg@ == mismatch_message(
            expected.slug@,
            (summary.total_size, summary.total_files, summary.total_dirs),
            (expected.total_size, expected.total_files, expected.total_dirs),
        ),
{
    if summary.total_size != expected.total_size || summary.total_files != expected.total_files
        || summary.total_dirs != expected.total_dirs {
        let mut msg = String::new();
        push_str(&mut msg, "unexpected summary for ");
        push_str(&mut msg, expected.slug.as_str());
        push_str(&mut msg, ": got size/files/dirs = ");
        push_decimal(&mut msg, summary.total_size);
        push_str(&mut msg, "/");
        push_decimal(&mut msg, summary.total_files);
        push_str(&mut msg, "/");
        push_decimal(&mut msg, summary.total_dirs);
        push_str(&mut msg, ", expected ");
        push_decimal(&mut msg, expected.total_size);
        push_str(&mut msg, "/");
        push_decimal(&mut msg, expected.total_files);
        push_str(&mut msg, "/");
        push_decimal(&mut msg, expected.total_dirs);
        assert(msg@ =~= mismatch_message(
            expected.slug@,
            (summary.total_size, summary.total_files, summary.total_dirs),
            (expected.total_size, expected.total_files, expected.total_dirs),
        ));
        return Err(msg);
    }
    Ok(())
}

/// The traversal profiles that benchmarks compare.
#[derive(Debug, Clone, Copy, PartialEq, Eq, Structural)]
pub enum BenchmarkProfile {
    /// The default number of threads.
    Default,
    /// A single thread.
    SingleThread,
}

impl BenchmarkProfile {
    /// The profile's name in a benchmark reference.
    pub open spec fn spec_name(self) -> Seq<char> {
        match self {
            BenchmarkProfile::Default => "default"@,
            BenchmarkProfile::SingleThread => "threads-1"@,
        }
    }

    /// The profile's name in a benchmark reference: `default` or `threads-1`.
    pub fn name(self) -> (s: &'static str)
        ensures
            s@ == self.spec_name(),
    {
        match self {
            BenchmarkProfile::Default => "default",
            BenchmarkProfile::SingleThread => "threads-1",
        }
    }
}

/// The faster profile by median run time: the single-thread one when its
/// median is strictly shorter, the default one otherwise.
pub fn best_profile(default_median_nanos: u128, single_thread_median_nanos: u128) -> (p: BenchmarkProfile)
    ensures
        p == (if single_thread_median_nanos < default_median_nanos {
            BenchmarkProfile::SingleThread
        } else {
            BenchmarkProfile::Default
        }),
{
    if single_thread_median_nanos < default_median_nanos {
        BenchmarkProfile::SingleThread
    } else {
        BenchmarkProfile::Default
    }
}

/// The values are in ascending order.
pub open spec fn sorted_asc(s: Seq<u128>) -> bool {
    forall|i: int, j: int| 0 <= i < j < s.len() ==> s[i] <= s[j]
}

/// Sorts the values in ascending order.
pub fn sort_ascending(v: &mut Vec<u128>)
    ensures
        sorted_asc(final(v)@),
        final(v)@.to_multiset() == old(v)@.to_multiset(),
{
    broadcast use vstd::seq_lib::group_to_multiset_ensures;

    let n = v.len();
    let mut i: usize = 1;
    while i < n
        invariant
            n == v@.len(),
            1 <= i,
            n > 0 ==> i <= n,
            sorted_asc(v@.take(i as int)) || n == 0,
            v@.to_multiset() == old(v)@.to_multiset(),
        decreases n - i,
    {
        let mut j: usize = i;
        assert forall|a: int, b: int| 0 <= a < b < j implies v@[a] <= v@[b] by {
            assert(v@.take(i as int)[a] == v@[a]);
            assert(v@.take(i as int)[b] == v@[b]);
        }
        while j > 0 && v[j - 1] > v[j]
            invariant
                n == v@.len(),
                i < n,
                j <= i,
                forall|a: int, b: int| 0 <= a < b < j ==> v@[a] <= v@[b],
                forall|a: int, b: int| j <= a < b <= i ==> v@[a] <= v@[b],
                forall|a: int, b: int| 0 <= a < j && j < b <= i ==> v@[a] <= v@[b],
                v@.to_multiset() == old(v)@.to_multiset(),
            decreases j,
        {
            let lower = v[j - 1];
            let upper = v[j];
            let ghost before = v@;
            v.set(j - 1, upper);
            v.set(j, lower);
            proof {
                let s1 = before.update(j - 1, upper);
                assert(v@ == s1.update(j as int, lower));
                vstd::seq_lib::to_multiset_update(before, j - 1, upper);
                vstd::seq_lib::to_multiset_update(s1, j as int, lower);
                let m = before.to_multiset();
                before.to_multiset_ensures();
                assert(before[j - 1] == lower);
                assert(before[j as int] == upper);
                assert(before.contains(lower));
                assert(before.contains(upper));
                assert(m.count(lower) > 0);
                assert(m.count(upper) > 0);
                assert(v@.to_multiset() =~= m);
            }
            j = j - 1;
        }
        assert(sorted_asc(v@.take(i + 1)));
        i = i + 1;
    }
    if n > 0 {
        assert(v@.take(n as int) =~= v@);
    }
    assert(sorted_asc(v@)) by {
        if n > 0 {
            assert forall|a: int, b: int| 0 <= a < b < v@.len() implies v@[a] <= v@[b] by {
                assert(v@.take(n as int)[a] == v@[a]);
                assert(v@.take(n as int)[b] == v@[b]);
            }
        }
    }
}

/// The median of some durations in nanoseconds: the middle value (the upper
/// one of the two middle values for an even count) once they are sorted,
/// which they are afterwards.
pub fn median_nanos(samples: &mut Vec<u128>) -> (m: u128)
    requires
        old(samples)@.len() > 0,
    ensures
        sorted_asc(final(samples)@),
        final(samples)@.to_multiset() == old(samples)@.to_multiset(),
        m == final(samples)@[(old(samples)@.len() / 2) as int],
{
    sort_ascending(samples);
    proof {
        broadcast use vstd::seq_lib::group_to_multiset_ensures;
        assert(samples@.len() == samples@.to_multiset().len());
    }
    samples[samples.len() / 2]
}

} // verus!
