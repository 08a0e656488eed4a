//! The fixture tree of each benchmark scenario, planned as a list of
//! directories and files to create, with the totals that a scan must report.

use vstd::prelude::*;
use crate::benchmark::{FixtureExpectation, ScenarioKind};
use crate::text::{push_str, push_zero_padded, zero_padded};

verus! {

/// One thing to create, by its path relative to the fixture root.
pub enum FixtureStep {
    /// A directory.
    Dir(String),
    /// A file of the given size, filled with a byte pattern that starts at the seed.
    File(String, usize, u8),
}

/// A step as plain values.
pub enum SpecStep {
    Dir(Seq<char>),
    File(Seq<char>, nat, u8),
}

impl View for FixtureStep {
    type V = SpecStep;

    open spec fn view(&self) -> SpecStep {
        match self {
            FixtureStep::Dir(p) => SpecStep::Dir(p@),
            FixtureStep::File(p, size, seed) => SpecStep::File(p@, *size as nat, *seed),
        }
    }
}

/// The steps as plain values.
pub open spec fn plan_view(steps: Seq<FixtureStep>) -> Seq<SpecStep> {
    steps.map_values(|s: FixtureStep| s@)
}

/// The total size of the files of a plan.
pub open spec fn planned_size(s: Seq<SpecStep>) -> nat
    decreases s.len(),
{
    if s.len() == 0 {
        0
    } else {
        planned_size(s.drop_last()) + match s.last() {
            SpecStep::File(_, size, _) => size,
            SpecStep::Dir(_) => 0,
        }
    }
}

/// The number of files of a plan.
pub open spec fn planned_files(s: Seq<SpecStep>) -> nat
    decreases s.len(),
{
    if s.len() == 0 {
        0
    } else {
        planned_files(s.drop_last()) + if s.last() is File {
            1nat
        } else {
            0nat
        }
    }
}

/// The number of directories of a plan (the root not included).
pub open spec fn planned_dirs(s: Seq<SpecStep>) -> nat
    decreases s.len(),
{
    if s.len() == 0 {
        0
    } else {
        planned_dirs(s.drop_last()) + if s.last() is Dir {
            1nat
        } else {
            0nat
        }
    }
}

// ---------------------------------------------------------------------------
// The trees.

/// `TinyFiles`: directory `d` of 40.
pub open spec fn tiny_dir(d: nat) -> Seq<char> {
    "batch-"@ + zero_padded(d, 2)
}

/// `TinyFiles`: file `f` of 50 in directory `d`.
pub open spec fn tiny_file(d: nat, f: nat) -> SpecStep {
    SpecStep::File(
        tiny_dir(d) + "/"@ + "tiny-"@ + zero_padded(f, 3) + ".bin"@,
        64 + ((d + f) % 7) * 8,
        d as u8,
    )
}

/// `DeepTree`: the directory at depth `depth` of 32, each inside the one before.
pub open spec fn deep_dir(depth: nat) -> Seq<char>
    decreases depth,
{
    if depth == 0 {
        "level-"@ + zero_padded(0, 2)
    } else {
        deep_dir((depth - 1) as nat) + "/"@ + "level-"@ + zero_padded(depth, 2)
    }
}

/// `WideTree`: directory `d` of 200.
pub open spec fn wide_dir(d: nat) -> Seq<char> {
    "node-"@ + zero_padded(d, 3)
}

/// `WideTree`: file `f` of 5 in directory `d`.
pub open spec fn wide_file(d: nat, f: nat) -> SpecStep {
    SpecStep::File(
        wide_dir(d) + "/"@ + "file-"@ + zero_padded(f, 2) + ".dat"@,
        384 + ((d + f) % 11) * 32,
        f as u8,
    )
}

/// `LargeFiles`: directory `d` of 4.
pub open spec fn large_dir(d: nat) -> Seq<char> {
    "segment-"@ + zero_padded(d, 2)
}

/// `LargeFiles`: file `f` of 4 in directory `d`.
pub open spec fn large_file(d: nat, f: nat) -> SpecStep {
    SpecStep::File(
        large_dir(d) + "/"@ + "chunk-"@ + zero_padded(f, 2) + ".bin"@,
        1_048_576 + (d * 4 + f) * 131_072,
        d as u8,
    )
}

/// `MixedTree`: section `d` of 12.
pub open spec fn mixed_section(d: nat) -> Seq<char> {
    "section-"@ + zero_padded(d, 2)
}

/// `MixedTree`: leaf `l` of 4 in section `d`.
pub open spec fn mixed_leaf(d: nat, l: nat) -> Seq<char> {
    mixed_section(d) + "/"@ + "leaf-"@ + zero_padded(l, 2)
}

/// `MixedTree`: item `f` of 8 in leaf `l` of section `d`.
pub open spec fn mixed_item(d: nat, l: nat, f: nat) -> SpecStep {
    SpecStep::File(
        mixed_leaf(d, l) + "/"@ + "item-"@ + zero_padded(f, 2) + ".txt"@,
        1_024 + ((d * 4 + l + f) % 9) * 128,
        (d + l) as u8,
    )
}

/// `MixedTree`: leaf `l` of section `d` and its items.
pub open spec fn mixed_leaf_block(d: nat, l: nat) -> Seq<SpecStep> {
    seq![SpecStep::Dir(mixed_leaf(d, l))] + Seq::new(8, |f: int| mixed_item(d, l, f as nat))
}

/// `MixedTree`: the first `n` leaves of section `d`.
pub open spec fn mixed_leaves(d: nat, n: nat) -> Seq<SpecStep>
    decreases n,
{
    if n == 0 {
        Seq::empty()
    } else {
        mixed_leaves(d, (n - 1) as nat) + mixed_leaf_block(d, (n - 1) as nat)
    }
}

/// The number of top-level blocks of a scenario's tree.
pub open spec fn outer_count(kind: ScenarioKind) -> nat {
    match kind {
        ScenarioKind::TinyFiles => 40,
        ScenarioKind::DeepTree => 32,
        ScenarioKind::WideTree => 200,
        ScenarioKind::LargeFiles => 4,
        ScenarioKind::MixedTree => 12,
    }
}

/// Block `d` of a scenario's tree, in creation order.
pub open spec fn block(kind: ScenarioKind, d: nat) -> Seq<SpecStep> {
    match kind {
        ScenarioKind::TinyFiles => seq![SpecStep::Dir(tiny_dir(d))] + Seq::new(
            50,
            |f: int| tiny_file(d, f as nat),
        ),
        ScenarioKind::DeepTree => seq![
            SpecStep::Dir(deep_dir(d)),
            SpecStep::File(deep_dir(d) + "/"@ + "payload.dat"@, 256 + d * 17, d as u8),
        ],
        ScenarioKind::WideTree => seq![SpecStep::Dir(wide_dir(d))] + Seq::new(
            5,
            |f: int| wide_file(d, f as nat),
        ),
        ScenarioKind::LargeFiles => seq![SpecStep::Dir(large_dir(d))] + Seq::new(
            4,
            |f: int| large_file(d, f as nat),
        ),
        ScenarioKind::MixedTree => seq![SpecStep::Dir(mixed_section(d))] + mixed_leaves(d, 4)
            + seq![
            SpecStep::File(
                mixed_section(d) + "/"@ + "summary.log"@,
                16_384 + d * 1_024,
                d as u8,
            ),
        ],
    }
}

/// The first `n` blocks of a scenario's tree.
pub open spec fn blocks_upto(kind: ScenarioKind, n: nat) -> Seq<SpecStep>
    decreases n,
{
    if n == 0 {
        Seq::empty()
    } else {
        blocks_upto(kind, (n - 1) as nat) + block(kind, (n - 1) as nat)
    }
}

/// Everything a scenario's fixture creates below its root, in creation order.
pub open spec fn fixture_steps(kind: ScenarioKind) -> Seq<SpecStep> {
    blocks_upto(kind, outer_count(kind))
}

// ---------------------------------------------------------------------------
// Building the plan.

/// A fixture tree to create and the totals a scan of it must report.
pub struct FixturePlan {
    pub steps: Vec<FixtureStep>,
    pub expectation: FixtureExpectation,
}

impl FixturePlan {
    /// The expectation counts the planned steps (and the root directory).
    pub open spec fn wf(self) -> bool {
        let v = plan_view(self.steps@);
        &&& self.expectation.total_size == planned_size(v)
        &&& self.expectation.total_files == planned_files(v)
        &&& self.expectation.total_dirs == 1 + planned_dirs(v)
        &&& self.expectation.total_size <= self.expectation.total_files * 4_000_000
        &&& self.expectation.total_files <= 100_000
        &&& self.expectation.total_dirs <= 100_000
    }

    fn add_dir(&mut self, path: String)
        requires
            old(self).wf(),
            old(self).expectation.total_dirs < 100_000,
        ensures
            final(self).wf(),
            plan_view(final(self).steps@) == plan_view(old(self).steps@).push(SpecStep::Dir(path@)),
            final(self).expectation.total_files == old(self).expectation.total_files,
            final(self).expectation.total_dirs == old(self).expectation.total_dirs + 1,
            final(self).expectation.slug == old(self).expectation.slug,
            final(self).expectation.label == old(self).expectation.label,
    {
        let ghost v0 = plan_view(self.steps@);
        let ghost p = path@;
        self.steps.push(FixtureStep::Dir(path));
        self.expectation.total_dirs = self.expectation.total_dirs + 1;
        proof {
            let v = plan_view(self.steps@);
            assert(v =~= v0.push(SpecStep::Dir(p)));
            assert(v.drop_last() =~= v0);
        }
    }

    fn add_file(&mut self, path: String, size: usize, seed: u8)
        requires
            old(self).wf(),
            old(self).expectation.total_files < 100_000,
            size <= 4_000_000,
        ensures
            final(self).wf(),
            plan_view(final(self).steps@) == plan_view(old(self).steps@).push(
                SpecStep::File(path@, size as nat, seed),
            ),
            final(self).expectation.total_files == old(self).expectation.total_files + 1,
            final(self).expectation.total_dirs == old(self).expectation.total_dirs,
            final(self).expectation.slug == old(self).expectation.slug,
            final(self).expectation.label == old(self).expectation.label,
    {
        let ghost v0 = plan_view(self.steps@);
        let ghost p = path@;
        self.steps.push(FixtureStep::File(path, size, seed));
        self.expectation.total_size = self.expectation.total_size + size as u64;
        self.expectation.total_files = self.expectation.total_files + 1;
        proof {
            let v = plan_view(self.steps@);
            assert(v =~= v0.push(SpecStep::File(p, size as nat, seed)));
            assert(v.drop_last() =~= v0);
        }
    }
}

/// `prefix` followed by `n` padded to `width` digits.
fn make_name(prefix: &str, n: usize, width: usize) -> (s: String)
    ensures
        s@ == prefix@ + zero_padded(n as nat, width as nat),
{
    let mut s = String::new();
    push_str(&mut s, prefix);
    push_zero_padded(&mut s, n as u64, width);
    s
}

/// `base/prefix{n:0width}suffix`.
fn child_name(base: &str, prefix: &str, n: usize, width: usize, suffix: &str) -> (s: String)
    ensures
        s@ == base@ + "/"@ + prefix@ + zero_padded(n as nat, width as nat) + suffix@,
{
    let mut s = String::new();
    push_str(&mut s, base);
    push_str(&mut s, "/");
    push_str(&mut s, prefix);
    push_zero_padded(&mut s, n as u64, width);
    push_str(&mut s, suffix);
    s
}

/// `base/prefix{n:0width}`.
fn child_dir(base: &str, prefix: &str, n: usize, width: usize) -> (s: String)
    ensures
        s@ == base@ + "/"@ + prefix@ + zero_padded(n as nat, width as nat),
{
    let mut s = String::new();
    push_str(&mut s, base);
    push_str(&mut s, "/");
    push_str(&mut s, prefix);
    push_zero_padded(&mut s, n as u64, width);
    s
}

/// `base/name`.
fn child_fixed(base: &str, name: &str) -> (s: String)
    ensures
        s@ == base@ + "/"@ + name@,
{
    let mut s = String::new();
    push_str(&mut s, base);
    push_str(&mut s, "/");
    push_str(&mut s, name);
    s
}

fn plan_tiny_files(plan: &mut FixturePlan)
    requires
        old(plan).wf(),
        plan_view(old(plan).steps@) == Seq::<SpecStep>::empty(),
        old(plan).expectation.total_files == 0,
        old(plan).expectation.total_dirs == 1,
    ensures
        final(plan).wf(),
        plan_view(final(plan).steps@) == fixture_steps(ScenarioKind::TinyFiles),
        final(plan).expectation.slug == old(plan).expectation.slug,
        final(plan).expectation.label == old(plan).expectation.label,
{
    let ghost kind = ScenarioKind::TinyFiles;
    let mut d: usize = 0;
    while d < 40
        invariant
            d <= 40,
            kind == ScenarioKind::TinyFiles,
            plan.wf(),
            plan_view(plan.steps@) == blocks_upto(kind, d as nat),
            plan.expectation.total_files <= d * 50,
            plan.expectation.total_dirs <= 1 + d,
            plan.expectation.slug == old(plan).expectation.slug,
            plan.expectation.label == old(plan).expectation.label,
        decreases 40 - d,
    {
        let dir = make_name("batch-", d, 2);
        plan.add_dir(dir.clone());
        let ghost files = Seq::new(50, |f: int| tiny_file(d as nat, f as nat));
        let mut f: usize = 0;
        while f < 50
            invariant
                d < 40,
                kind == ScenarioKind::TinyFiles,
                f <= 50,
                plan.wf(),
                dir@ == tiny_dir(d as nat),
                files == Seq::new(50, |f: int| tiny_file(d as nat, f as nat)),
                plan_view(plan.steps@) == blocks_upto(kind, d as nat) + seq![
                    SpecStep::Dir(tiny_dir(d as nat)),
                ] + files.take(f as int),
                plan.expectation.total_files <= d * 50 + f,
                plan.expectation.total_dirs <= 2 + d,
                plan.expectation.slug == old(plan).expectation.slug,
                plan.expectation.label == old(plan).expectation.label,
            decreases 50 - f,
        {
            let path = child_name(dir.as_str(), "tiny-", f, 3, ".bin");
            let size: usize = 64 + ((d + f) % 7) * 8;
            plan.add_file(path, size, d as u8);
            assert(files.take(f + 1) =~= files.take(f as int).push(files[f as int]));
            f = f + 1;
        }
        assert(files.take(50) =~= files);
        assert(block(kind, d as nat) == seq![SpecStep::Dir(tiny_dir(d as nat))] + files);
        assert(blocks_upto(kind, (d + 1) as nat) == blocks_upto(kind, d as nat) + block(
            kind,
            d as nat,
        ));
        assert(plan_view(plan.steps@) =~= blocks_upto(kind, (d + 1) as nat));
        d = d + 1;
    }
}

fn plan_deep_tree(plan: &mut FixturePlan)
    requires
        old(plan).wf(),
        plan_view(old(plan).steps@) == Seq::<SpecStep>::empty(),
        old(plan).expectation.total_files == 0,
        old(plan).expectation.total_dirs == 1,
    ensures
        final(plan).wf(),
        plan_view(final(plan).steps@) == fixture_steps(ScenarioKind::DeepTree),
        final(plan).expectation.slug == old(plan).expectation.slug,
        final(plan).expectation.label == old(plan).expectation.label,
{
    let ghost kind = ScenarioKind::DeepTree;
    let mut cursor = String::new();
    let mut depth: usize = 0;
    while depth < 32
        invariant
            depth <= 32,
            kind == ScenarioKind::DeepTree,
            plan.wf(),
            depth > 0 ==> cursor@ == deep_dir((depth - 1) as nat),
            plan_view(plan.steps@) == blocks_upto(kind, depth as nat),
            plan.expectation.total_files <= depth,
            plan.expectation.total_dirs <= 1 + depth,
            plan.expectation.slug == old(plan).expectation.slug,
            plan.expectation.label == old(plan).expectation.label,
        decreases 32 - depth,
    {
        cursor = if depth == 0 {
            make_name("level-", 0, 2)
        } else {
            child_dir(cursor.as_str(), "level-", depth, 2)
        };
        assert(cursor@ == deep_dir(depth as nat));
        plan.add_dir(cursor.clone());
        let path = child_fixed(cursor.as_str(), "payload.dat");
        plan.add_file(path, 256 + depth * 17, depth as u8);
        assert(block(kind, depth as nat) =~= seq![
            SpecStep::Dir(deep_dir(depth as nat)),
            SpecStep::File(
                deep_dir(depth as nat) + "/"@ + "payload.dat"@,
                (256 + depth * 17) as nat,
                depth as u8,
            ),
        ]);
        assert(blocks_upto(kind, (depth + 1) as nat) == blocks_upto(kind, depth as nat) + block(
            kind,
            depth as nat,
        ));
        assert(blocks_upto(kind, (depth + 1) as nat) =~= blocks_upto(kind, depth as nat).push(
            SpecStep::Dir(deep_dir(depth as nat)),
        ).push(
            SpecStep::File(
                deep_dir(depth as nat) + "/"@ + "payload.dat"@,
                (256 + depth * 17) as nat,
                depth as u8,
            ),
        ));
        depth = depth + 1;
    }
}

fn plan_wide_tree(plan: &mut FixturePlan)
    requires
        old(plan).wf(),
        plan_view(old(plan).steps@) == Seq::<SpecStep>::empty(),
        old(plan).expectation.total_files == 0,
        old(plan).expectation.total_dirs == 1,
    ensures
        final(plan).wf(),
        plan_view(final(plan).steps@) == fixture_steps(ScenarioKind::WideTree),
        final(plan).expectation.slug == old(plan).expectation.slug,
        final(plan).expectation.label == old(plan).expectation.label,
{
    let ghost kind = ScenarioKind::WideTree;
    let mut d: usize = 0;
    while d < 200
        invariant
            d <= 200,
            kind == ScenarioKind::WideTree,
            plan.wf(),
            plan_view(plan.steps@) == blocks_upto(kind, d as nat),
            plan.expectation.total_files <= d * 5,
            plan.expectation.total_dirs <= 1 + d,
            plan.expectation.slug == old(plan).expectation.slug,
            plan.expectation.label == old(plan).expectation.label,
        decreases 200 - d,
    {
        let dir = make_name("node-", d, 3);
        plan.add_dir(dir.clone());
        let ghost files = Seq::new(5, |f: int| wide_file(d as nat, f as nat));
        let mut f: usize = 0;
        while f < 5
            invariant
                d < 200,
                kind == ScenarioKind::WideTree,
                f <= 5,
                plan.wf(),
                dir@ == wide_dir(d as nat),
                files == Seq::new(5, |f: int| wide_file(d as nat, f as nat)),
                plan_view(plan.steps@) == blocks_upto(kind, d as nat) + seq![
                    SpecStep::Dir(wide_dir(d as nat)),
                ] + files.take(f as int),
                plan.expectation.total_files <= d * 5 + f,
                plan.expectation.total_dirs <= 2 + d,
                plan.expectation.slug == old(plan).expectation.slug,
                plan.expectation.label == old(plan).expectation.label,
            decreases 5 - f,
        {
            let path = child_name(dir.as_str(), "file-", f, 2, ".dat");
            let size: usize = 384 + ((d + f) % 11) * 32;
            plan.add_file(path, size, f as u8);
            assert(files.take(f + 1) =~= files.take(f as int).push(files[f as int]));
            f = f + 1;
        }
        assert(files.take(5) =~= files);
        assert(block(kind, d as nat) == seq![SpecStep::Dir(wide_dir(d as nat))] + files);
        assert(blocks_upto(kind, (d + 1) as nat) == blocks_upto(kind, d as nat) + block(
            kind,
            d as nat,
        ));
        assert(plan_view(plan.steps@) =~= blocks_upto(kind, (d + 1) as nat));
        d = d + 1;
    }
}

fn plan_large_files(plan: &mut FixturePlan)
    requires
        old(plan).wf(),
        plan_view(old(plan).steps@) == Seq::<SpecStep>::empty(),
        old(plan).expectation.total_files == 0,
        old(plan).expectation.total_dirs == 1,
    ensures
        final(plan).wf(),
        plan_view(final(plan).steps@) == fixture_steps(ScenarioKind::LargeFiles),
        final(plan).expectation.slug == old(plan).expectation.slug,
        final(plan).expectation.label == old(plan).expectation.label,
{
    let ghost kind = ScenarioKind::LargeFiles;
    let mut d: usize = 0;
    while d < 4
        invariant
            d <= 4,
            kind == ScenarioKind::LargeFiles,
            plan.wf(),
            plan_view(plan.steps@) == blocks_upto(kind, d as nat),
            plan.expectation.total_files <= d * 4,
            plan.expectation.total_dirs <= 1 + d,
            plan.expectation.slug == old(plan).expectation.slug,
            plan.expectation.label == old(plan).expectation.label,
        decreases 4 - d,
    {
        let dir = make_name("segment-", d, 2);
        plan.add_dir(dir.clone());
        let ghost files = Seq::new(4, |f: int| large_file(d as nat, f as nat));
        let mut f: usize = 0;
        while f < 4
            invariant
                d < 4,
                kind == ScenarioKind::LargeFiles,
                f <= 4,
                plan.wf(),
                dir@ == large_dir(d as nat),
                files == Seq::new(4, |f: int| large_file(d as nat, f as nat)),
                plan_view(plan.steps@) == blocks_upto(kind, d as nat) + seq![
                    SpecStep::Dir(large_dir(d as nat)),
                ] + files.take(f as int),
                plan.expectation.total_files <= d * 4 + f,
                plan.expectation.total_dirs <= 2 + d,
                plan.expectation.slug == old(plan).expectation.slug,
                plan.expectation.label == old(plan).expectation.label,
            decreases 4 - f,
        {
            let path = child_name(dir.as_str(), "chunk-", f, 2, ".bin");
            let size: usize = 1_048_576 + (d * 4 + f) * 131_072;
            plan.add_file(path, size, d as u8);
            assert(files.take(f + 1) =~= files.take(f as int).push(files[f as int]));
            f = f + 1;
        }
        assert(files.take(4) =~= files);
        assert(block(kind, d as nat) == seq![SpecStep::Dir(large_dir(d as nat))] + files);
        assert(blocks_upto(kind, (d + 1) as nat) == blocks_upto(kind, d as nat) + block(
            kind,
            d as nat,
        ));
        assert(plan_view(plan.steps@) =~= blocks_upto(kind, (d + 1) as nat));
        d = d + 1;
    }
}

fn plan_mixed_tree(plan: &mut FixturePlan)
    requires
        old(plan).wf(),
        plan_view(old(plan).steps@) == Seq::<SpecStep>::empty(),
        old(plan).expectation.total_files == 0,
        old(plan).expectation.total_dirs == 1,
    ensures
        final(plan).wf(),
        plan_view(final(plan).steps@) == fixture_steps(ScenarioKind::MixedTree),
        final(plan).expectation.slug == old(plan).expectation.slug,
        final(plan).expectation.label == old(plan).expectation.label,
{
    let ghost kind = ScenarioKind::MixedTree;
    let mut d: usize = 0;
    while d < 12
        invariant
            d <= 12,
            kind == ScenarioKind::MixedTree,
            plan.wf(),
            plan_view(plan.steps@) == blocks_upto(kind, d as nat),
            plan.expectation.total_files <= d * 33,
            plan.expectation.total_dirs <= 1 + d * 5,
            plan.expectation.slug == old(plan).expectation.slug,
            plan.expectation.label == old(plan).expectation.label,
        decreases 12 - d,
    {
        let section = make_name("section-", d, 2);
        plan.add_dir(section.clone());
        let mut l: usize = 0;
        while l < 4
            invariant
                d < 12,
                kind == ScenarioKind::MixedTree,
                l <= 4,
                plan.wf(),
                section@ == mixed_section(d as nat),
                plan_view(plan.steps@) == blocks_upto(kind, d as nat) + seq![
                    SpecStep::Dir(mixed_section(d as nat)),
                ] + mixed_leaves(d as nat, l as nat),
                plan.expectation.total_files <= d * 33 + l * 8,
                plan.expectation.total_dirs <= 2 + d * 5 + l,
                plan.expectation.slug == old(plan).expectation.slug,
                plan.expectation.label == old(plan).expectation.label,
            decreases 4 - l,
        {
            let leaf = child_dir(section.as_str(), "leaf-", l, 2);
            plan.add_dir(leaf.clone());
            let ghost items = Seq::new(8, |f: int| mixed_item(d as nat, l as nat, f as nat));
            let ghost before = blocks_upto(kind, d as nat) + seq![
                SpecStep::Dir(mixed_section(d as nat)),
            ] + mixed_leaves(d as nat, l as nat);
            let mut f: usize = 0;
            while f < 8
                invariant
                    d < 12,
                    l < 4,
                    f <= 8,
                    plan.wf(),
                    leaf@ == mixed_leaf(d as nat, l as nat),
                    items == Seq::new(8, |f: int| mixed_item(d as nat, l as nat, f as nat)),
                    plan_view(plan.steps@) == before + seq![
                        SpecStep::Dir(mixed_leaf(d as nat, l as nat)),
                    ] + items.take(f as int),
                    plan.expectation.total_files <= d * 33 + l * 8 + f,
                    plan.expectation.total_dirs <= 3 + d * 5 + l,
                    plan.expectation.slug == old(plan).expectation.slug,
                    plan.expectation.label == old(plan).expectation.label,
                decreases 8 - f,
            {
                let path = child_name(leaf.as_str(), "item-", f, 2, ".txt");
                let size: usize = 1_024 + ((d * 4 + l + f) % 9) * 128;
                plan.add_file(path, size, (d + l) as u8);
                assert(items.take(f + 1) =~= items.take(f as int).push(items[f as int]));
                f = f + 1;
            }
            assert(items.take(8) =~= items);
            assert(mixed_leaves(d as nat, (l + 1) as nat) == mixed_leaves(d as nat, l as nat)
                + mixed_leaf_block(d as nat, l as nat));
            assert(plan_view(plan.steps@) =~= blocks_upto(kind, d as nat) + seq![
                SpecStep::Dir(mixed_section(d as nat)),
            ] + mixed_leaves(d as nat, (l + 1) as nat));
            l = l + 1;
        }
        let summary = child_fixed(section.as_str(), "summary.log");
        plan.add_file(summary, 16_384 + d * 1_024, d as u8);
        assert(blocks_upto(kind, (d + 1) as nat) == blocks_upto(kind, d as nat) + block(
            kind,
            d as nat,
        ));
        assert(plan_view(plan.steps@) =~= blocks_upto(kind, (d + 1) as nat));
        d = d + 1;
    }
}

/// Plans the fixture tree of a scenario. The expectation names the
/// scenario and holds the totals of the plan: the summed file sizes, the
/// number of files, and the number of directories counting the root.
pub fn fixture_plan(kind: ScenarioKind) -> (plan: FixturePlan)
    ensures
        plan_view(plan.steps@) == fixture_steps(kind),
        plan.expectation.slug@ == kind.spec_slug(),
        plan.expectation.label@ == kind.spec_label(),
        plan.expectation.total_size == planned_size(fixture_steps(kind)),
        plan.expectation.total_files == planned_files(fixture_steps(kind)),
        plan.expectation.total_dirs == 1 + planned_dirs(fixture_steps(kind)),
{
    let expectation = FixtureExpectation {
        slug: String::from_str(kind.slug()),
        label: String::from_str(kind.label()),
        total_size: 0,
        total_files: 0,
        total_dirs: 1,
    };
    let mut plan = FixturePlan { steps: Vec::new(), expectation };
    assert(plan_view(plan.steps@) =~= Seq::<SpecStep>::empty());
    match kind {
        ScenarioKind::TinyFiles => plan_tiny_files(&mut plan),
        ScenarioKind::DeepTree => plan_deep_tree(&mut plan),
        ScenarioKind::WideTree => plan_wide_tree(&mut plan),
        ScenarioKind::LargeFiles => plan_large_files(&mut plan),
        ScenarioKind::MixedTree => plan_mixed_tree(&mut plan),
    }
    plan
}

/// The length of the block of bytes that fixture files repeat.
pub const PATTERN_CHUNK_SIZE: usize = 8192;

/// The block of bytes that a fixture file written with `seed` repeats: byte
/// `i` is `seed + i` modulo 256.
pub fn pattern_chunk(seed: u8) -> (chunk: Vec<u8>)
    ensures
        chunk@.len() == PATTERN_CHUNK_SIZE,
        forall|i: int| 0 <= i < PATTERN_CHUNK_SIZE ==> chunk@[i] == ((seed + i) % 256) as u8,
{
    let mut chunk: Vec<u8> = Vec::new();
    let mut idx: usize = 0;
    while idx < PATTERN_CHUNK_SIZE
        invariant
            idx <= PATTERN_CHUNK_SIZE,
            chunk@.len() == idx,
            forall|i: int| 0 <= i < idx ==> chunk@[i] == ((seed + i) % 256) as u8,
        decreases PATTERN_CHUNK_SIZE - idx,
    {
        chunk.push(((seed as usize + idx) % 256) as u8);
        idx = idx + 1;
    }
    chunk
}

/// When every block of a scenario has `len` steps, step `j` of block `d`
/// stands at position `d * len + j` of the first `n` blocks.
proof fn lemma_blocks_index(kind: ScenarioKind, n: nat, len: nat, d: nat, j: nat)
    requires
        forall|k: nat| k < n ==> (#[trigger] block(kind, k)).len() == len,
        d < n,
        j < len,
    ensures
        blocks_upto(kind, n).len() == n * len,
        d * len + j < n * len,
        blocks_upto(kind, n)[(d * len + j) as int] == block(kind, d)[j as int],
    decreases n,
{
    let n1 = (n - 1) as nat;
    if d < n1 {
        lemma_blocks_index(kind, n1, len, d, j);
    } else {
        if n1 > 0 {
            lemma_blocks_index(kind, n1, len, 0, 0);
        } else {
            assert(blocks_upto(kind, 0).len() == 0);
        }
    }
    assert(blocks_upto(kind, n) == blocks_upto(kind, n1) + block(kind, n1));
    assert(n * len == n1 * len + len) by (nonlinear_arith)
        requires
            n1 == n - 1,
    ;
    assert(d * len + j < n * len) by (nonlinear_arith)
        requires
            d < n,
            j < len,
    ;
    if d == n1 {
        assert(blocks_upto(kind, n1).len() == n1 * len);
    } else {
        assert(d * len + j < n1 * len) by (nonlinear_arith)
            requires
                d < n1,
                j < len,
        ;
    }
}

/// Leaf `l` and its items stand at position `l * 9` of the first `n` leaves of a section.
proof fn lemma_mixed_leaves_index(d: nat, n: nat, l: nat, j: nat)
    requires
        l < n,
        j < 9,
    ensures
        mixed_leaves(d, n).len() == n * 9,
        mixed_leaves(d, n)[(l * 9 + j) as int] == mixed_leaf_block(d, l)[j as int],
    decreases n,
{
    let n1 = (n - 1) as nat;
    if l < n1 {
        lemma_mixed_leaves_index(d, n1, l, j);
    } else if n1 > 0 {
        lemma_mixed_leaves_index(d, n1, 0, 0);
    }
    assert(mixed_leaves(d, n) == mixed_leaves(d, n1) + mixed_leaf_block(d, n1));
    assert(mixed_leaf_block(d, n1).len() == 9);
    assert(n * 9 == n1 * 9 + 9);
}

/// The `LargeFiles` tree: 4 directories `segment-DD`, each followed by its 4
/// files `segment-DD/chunk-FF.bin` of 1 MiB plus `(4 d + f)` times 128 KiB,
/// written with seed `d`.
pub proof fn lemma_large_files_plan(d: nat, f: nat)
    requires
        d < 4,
        f < 4,
    ensures
        fixture_steps(ScenarioKind::LargeFiles).len() == 20,
        fixture_steps(ScenarioKind::LargeFiles)[(d * 5) as int] == SpecStep::Dir(
            "segment-"@ + zero_padded(d, 2),
        ),
        fixture_steps(ScenarioKind::LargeFiles)[(d * 5 + 1 + f) as int] == SpecStep::File(
            "segment-"@ + zero_padded(d, 2) + "/"@ + "chunk-"@ + zero_padded(f, 2) + ".bin"@,
            1_048_576 + 131_072 * (4 * d + f),
            d as u8,
        ),
{
    let kind = ScenarioKind::LargeFiles;
    assert forall|k: nat| k < 4 implies (#[trigger] block(kind, k)).len() == 5 by {}
    lemma_blocks_index(kind, 4, 5, d, 0);
    lemma_blocks_index(kind, 4, 5, d, 1 + f);
}

/// The `TinyFiles` tree: 40 directories `batch-DD`, each followed by its 50
/// files `batch-DD/tiny-FFF.bin` of `64 + ((d + f) mod 7) * 8` bytes, written
/// with seed `d`.
pub proof fn lemma_tiny_files_plan(d: nat, f: nat)
    requires
        d < 40,
        f < 50,
    ensures
        fixture_steps(ScenarioKind::TinyFiles).len() == 2040,
        fixture_steps(ScenarioKind::TinyFiles)[(d * 51) as int] == SpecStep::Dir("batch-"@ + zero_padded(d, 2)),
        fixture_steps(ScenarioKind::TinyFiles)[(d * 51 + 1 + f) as int] == SpecStep::File(
            "batch-"@ + zero_padded(d, 2) + "/"@ + "tiny-"@ + zero_padded(f, 3) + ".bin"@,
            64 + 8 * ((f + d) % 7),
            d as u8,
        ),
{
    let kind = ScenarioKind::TinyFiles;
    assert forall|k: nat| k < 40 implies (#[trigger] block(kind, k)).len() == 51 by {}
    lemma_blocks_index(kind, 40, 51, d, 0);
    lemma_blocks_index(kind, 40, 51, d, 1 + f);
}

/// The `WideTree` tree: 200 directories `node-DDD`, each followed by its 5
/// files `node-DDD/file-FF.dat` of `384 + ((d + f) mod 11) * 32` bytes,
/// written with seed `f`.
pub proof fn lemma_wide_tree_plan(d: nat, f: nat)
    requires
        d < 200,
        f < 5,
    ensures
        fixture_steps(ScenarioKind::WideTree).len() == 1200,
        fixture_steps(ScenarioKind::WideTree)[(d * 6) as int] == SpecStep::Dir("node-"@ + zero_padded(d, 3)),
        fixture_steps(ScenarioKind::WideTree)[(d * 6 + 1 + f) as int] == SpecStep::File(
            "node-"@ + zero_padded(d, 3) + "/"@ + "file-"@ + zero_padded(f, 2) + ".dat"@,
            384 + 32 * ((f + d) % 11),
            f as u8,
        ),
{
    let kind = ScenarioKind::WideTree;
    assert forall|k: nat| k < 200 implies (#[trigger] block(kind, k)).len() == 6 by {}
    lemma_blocks_index(kind, 200, 6, d, 0);
    lemma_blocks_index(kind, 200, 6, d, 1 + f);
}

/// The `DeepTree` tree: 32 nested directories `level-00/level-01/...`, each
/// followed by its file `payload.dat` of `256 + 17 d` bytes, written with
/// seed `d`.
pub proof fn lemma_deep_tree_plan(d: nat)
    requires
        d < 32,
    ensures
        fixture_steps(ScenarioKind::DeepTree).len() == 64,
        deep_dir(0) == "level-"@ + zero_padded(0, 2),
        d >= 1 ==> deep_dir(d) == deep_dir((d - 1) as nat) + "/"@ + "level-"@ + zero_padded(d, 2),
        fixture_steps(ScenarioKind::DeepTree)[(d * 2) as int] == SpecStep::Dir(deep_dir(d)),
        fixture_steps(ScenarioKind::DeepTree)[(d * 2 + 1) as int] == SpecStep::File(
            deep_dir(d) + "/"@ + "payload.dat"@,
            256 + 17 * d,
            d as u8,
        ),
{
    let kind = ScenarioKind::DeepTree;
    assert forall|k: nat| k < 32 implies (#[trigger] block(kind, k)).len() == 2 by {}
    lemma_blocks_index(kind, 32, 2, d, 0);
    lemma_blocks_index(kind, 32, 2, d, 1);
}

/// The `MixedTree` tree: 12 sections `section-DD`, each followed by its 4
/// leaves `section-DD/leaf-LL` (each followed by its 8 files
/// `item-FF.txt` of `1024 + ((4 d + l + f) mod 9) * 128` bytes, seed `d + l`)
/// and its file `summary.log` of `16384 + 1024 d` bytes, seed `d`.
pub proof fn lemma_mixed_tree_plan(d: nat, l: nat, f: nat)
    requires
        d < 12,
        l < 4,
        f < 8,
    ensures
        fixture_steps(ScenarioKind::MixedTree).len() == 456,
        fixture_steps(ScenarioKind::MixedTree)[(d * 38) as int] == SpecStep::Dir(
            "section-"@ + zero_padded(d, 2),
        ),
        fixture_steps(ScenarioKind::MixedTree)[(d * 38 + 1 + l * 9) as int] == SpecStep::Dir(
            "section-"@ + zero_padded(d, 2) + "/"@ + "leaf-"@ + zero_padded(l, 2),
        ),
        fixture_steps(ScenarioKind::MixedTree)[(d * 38 + 1 + l * 9 + 1 + f) as int] == SpecStep::File(
            "section-"@ + zero_padded(d, 2) + "/"@ + "leaf-"@ + zero_padded(l, 2) + "/"@ + "item-"@
                + zero_padded(f, 2) + ".txt"@,
            1_024 + 128 * ((4 * d + l + f) % 9),
            (d + l) as u8,
        ),
        fixture_steps(ScenarioKind::MixedTree)[(d * 38 + 37) as int] == SpecStep::File(
            "section-"@ + zero_padded(d, 2) + "/"@ + "summary.log"@,
            16_384 + 1_024 * d,
            d as u8,
        ),
{
    let kind = ScenarioKind::MixedTree;
    assert forall|k: nat| k < 12 implies (#[trigger] block(kind, k)).len() == 38 by {
        lemma_mixed_leaves_index(k, 4, 0, 0);
    }
    lemma_mixed_leaves_index(d, 4, l, 0);
    lemma_mixed_leaves_index(d, 4, l, 1 + f);
    lemma_blocks_index(kind, 12, 38, d, 0);
    lemma_blocks_index(kind, 12, 38, d, 1 + l * 9);
    lemma_blocks_index(kind, 12, 38, d, 1 + l * 9 + 1 + f);
    lemma_blocks_index(kind, 12, 38, d, 37);
    let b = block(kind, d);
    let leaves = mixed_leaves(d, 4);
    assert(b == seq![SpecStep::Dir(mixed_section(d))] + leaves + seq![
        SpecStep::File(mixed_section(d) + "/"@ + "summary.log"@, 16_384 + d * 1_024, d as u8),
    ]);
    assert(b[(1 + l * 9) as int] == leaves[(l * 9) as int]);
    assert(b[(1 + l * 9 + 1 + f) as int] == leaves[(l * 9 + 1 + f) as int]);
}

} // verus!
