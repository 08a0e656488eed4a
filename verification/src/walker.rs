//! Accumulation of scan results and the choice between a serial and a
//! parallel traversal.

use vstd::prelude::*;
use crate::top::{TopChange, TopFiles, is_top_by_size, least_keys_are, offer_step};

verus! {

/// With this many root paths a parallel traversal is chosen outright.
pub const PARALLEL_ROOT_PATH_HINT_THRESHOLD: usize = 4;

/// With this many estimated root entries a parallel traversal is chosen.
pub const PARALLEL_ROOT_ENTRY_HINT_THRESHOLD: usize = 32;

/// `a + b` modulo 2^64.
pub open spec fn add_wrapping(a: u64, b: u64) -> u64 {
    if a + b > u64::MAX {
        (a + b - 0x1_0000_0000_0000_0000int) as u64
    } else {
        (a + b) as u64
    }
}

/// What one walked entry counts: (bytes, files, directories).
pub open spec fn entry_counts(e: (Option<bool>, Option<(bool, u64)>)) -> (nat, nat, nat) {
    match entry_kind(e.0, e.1) {
        EntryKind::Dir => (0, 0, 1),
        EntryKind::File(len) => (len as nat, 1, 0),
        EntryKind::Skipped => (0, 0, 0),
    }
}

/// Component-wise sum of two counts.
pub open spec fn add_counts(a: (nat, nat, nat), b: (nat, nat, nat)) -> (nat, nat, nat) {
    (a.0 + b.0, a.1 + b.1, a.2 + b.2)
}

/// What a sequence of walked entries counts.
pub open spec fn tally(s: Seq<(Option<bool>, Option<(bool, u64)>)>) -> (nat, nat, nat)
    decreases s.len(),
{
    if s.len() == 0 {
        (0, 0, 0)
    } else {
        add_counts(tally(s.drop_last()), entry_counts(s.last()))
    }
}

/// A thread's counters as numbers.
pub open spec fn counts_of(l: LocalScan) -> (nat, nat, nat) {
    (l.local_size as nat, l.local_files as nat, l.local_dirs as nat)
}

/// What one walked entry counts.
pub enum EntryKind {
    Dir,
    File(u64),
    Skipped,
}

/// How an entry counts: a directory when its file type says so, else by its
/// metadata (a directory, or a file of the given length), and not at all
/// when its metadata could not be read.
pub open spec fn entry_kind(file_type_is_dir: Option<bool>, metadata: Option<(bool, u64)>) -> EntryKind {
    if file_type_is_dir == Some(true) {
        EntryKind::Dir
    } else {
        match metadata {
            Some((true, _)) => EntryKind::Dir,
            Some((false, len)) => EntryKind::File(len),
            None => EntryKind::Skipped,
        }
    }
}

/// What one traversal thread has counted so far.
pub struct LocalScan {
    pub local_size: u64,
    pub local_files: u64,
    pub local_dirs: u64,
    /// The largest files this thread has seen, when a top list was asked for.
    pub heap: Option<TopFiles>,
}

impl LocalScan {
    /// The kept files are a selection by size.
    pub open spec fn wf(self) -> bool {
        self.heap matches Some(h) ==> h.wf_by_size()
    }

    /// Nothing counted; a top list of `n` files when `n_top` is `Some(n)`.
    pub fn new(n_top: Option<usize>) -> (s: LocalScan)
        ensures
            s.wf(),
            s.local_size == 0,
            s.local_files == 0,
            s.local_dirs == 0,
            n_top is None ==> s.heap is None,
            n_top matches Some(n) ==> s.heap matches Some(h) && h.limit() == n && h.offered()
                =~= vstd::multiset::Multiset::<(u64, u64)>::empty() && h.items().len() == 0,
    {
        let heap = match n_top {
            Some(n) => Some(TopFiles::new(n)),
            None => None,
        };
        LocalScan { local_size: 0, local_files: 0, local_dirs: 0, heap }
    }

    /// Whether counting one more entry, a file of `size` bytes at most, keeps
    /// every counter within range.
    pub fn has_room(&self, size: u64) -> (ok: bool)
        ensures
            ok == (self.local_size + size <= u64::MAX && self.local_files < u64::MAX
                && self.local_dirs < u64::MAX),
    {
        self.local_size <= u64::MAX - size && self.local_files < u64::MAX && self.local_dirs
            < u64::MAX
    }

    /// The keys among which the caller names the kept file that leaves when a
    /// file of `size` bytes is counted (see `TopFiles::offer_candidates`); none
    /// without a top list.
    pub fn drop_candidates(&self, size: u64) -> (keys: Vec<u64>)
        requires
            self.wf(),
        ensures
            self.heap is None ==> keys@.len() == 0,
            self.heap matches Some(h) ==> (if h.items().len() >= h.limit() && h.limit() > 0 && size
                > h.items().last().0 {
                least_keys_are(h.items(), keys@)
            } else {
                keys@.len() == 0
            }),
    {
        match &self.heap {
            Some(h) => h.offer_candidates(size),
            None => Vec::new(),
        }
    }

    /// Counts one walked entry: a directory adds to the directory count; a
    /// file adds its length to the size and one to the file count, and is
    /// offered to the top list under `key` (the kept file that leaves, if one
    /// does, is the victim named by `drop_key`); an entry without metadata is
    /// skipped.
    pub fn process_entry(
        &mut self,
        file_type_is_dir: Option<bool>,
        metadata: Option<(bool, u64)>,
        key: u64,
        drop_key: u64,
    ) -> (change: TopChange)
        requires
            old(self).wf(),
            old(self).local_dirs < u64::MAX,
            old(self).local_files < u64::MAX,
            metadata matches Some((false, len)) ==> old(self).local_size + len <= u64::MAX,
        ensures
            final(self).wf(),
            counts_of(*final(self)) == add_counts(counts_of(*old(self)), entry_counts((file_type_is_dir, metadata))),
            file_type_is_dir != Some(true) && metadata is Some && !metadata.unwrap().0 ==> final(self).local_files
                == old(self).local_files + 1 && final(self).local_size == old(self).local_size
                + metadata.unwrap().1 && final(self).local_dirs == old(self).local_dirs,
            file_type_is_dir == Some(true) || (metadata is Some && metadata.unwrap().0) ==> final(self).local_dirs
                == old(self).local_dirs + 1 && final(self).local_files == old(self).local_files
                && final(self).local_size == old(self).local_size,
            file_type_is_dir != Some(true) && metadata is None ==> final(self).local_dirs == old(
                self,
            ).local_dirs && final(self).local_files == old(self).local_files && final(self).local_size
                == old(self).local_size,
            match entry_kind(file_type_is_dir, metadata) {
                EntryKind::Dir => {
                    &&& final(self).local_dirs == old(self).local_dirs + 1
                    &&& final(self).local_files == old(self).local_files
                    &&& final(self).local_size == old(self).local_size
                    &&& final(self).heap == old(self).heap
                    &&& change == TopChange::Rejected
                },
                EntryKind::File(len) => {
                    &&& final(self).local_dirs == old(self).local_dirs
                    &&& final(self).local_files == old(self).local_files + 1
                    &&& final(self).local_size == old(self).local_size + len
                    &&& (old(self).heap is None ==> final(self).heap is None && change
                        == TopChange::Rejected)
                    &&& (old(self).heap matches Some(h) ==> final(self).heap matches Some(h2)
                        && h2.limit() == h.limit() && h2.offered() == h.offered().insert((len, key))
                        && is_top_by_size(h2.offered(), h2.items(), h2.limit()) && offer_step(
                        h,
                        h2,
                        len,
                        key,
                        drop_key,
                        change,
                    ))
                },
                EntryKind::Skipped => {
                    &&& final(self).local_dirs == old(self).local_dirs
                    &&& final(self).local_files == old(self).local_files
                    &&& final(self).local_size == old(self).local_size
                    &&& final(self).heap == old(self).heap
                    &&& change == TopChange::Rejected
                },
            },
    {
        if file_type_is_dir == Some(true) {
            self.local_dirs = self.local_dirs + 1;
            return TopChange::Rejected;
        }
        match metadata {
            Some((true, _)) => {
                self.local_dirs = self.local_dirs + 1;
                TopChange::Rejected
            },
            Some((false, len)) => {
                self.local_size = self.local_size + len;
                self.local_files = self.local_files + 1;
                match &mut self.heap {
                    Some(h) => h.offer(len, key, drop_key),
                    None => TopChange::Rejected,
                }
            },
            None => TopChange::Rejected,
        }
    }
}

/// The totals of a whole scan, gathered from every traversal thread.
pub struct WalkerStats {
    pub total_size: u64,
    pub total_files: u64,
    pub total_dirs: u64,
    /// Each thread's largest files, when a top list was asked for.
    pub top_files: Option<Vec<Vec<(u64, u64)>>>,
}

impl WalkerStats {
    /// Zero totals, with an empty collection of top lists when `show_top`.
    pub fn new(show_top: bool) -> (s: WalkerStats)
        ensures
            s.total_size == 0,
            s.total_files == 0,
            s.total_dirs == 0,
            show_top ==> s.top_files is Some && s.top_files->0@.len() == 0,
            !show_top ==> s.top_files is None,
    {
        WalkerStats {
            total_size: 0,
            total_files: 0,
            total_dirs: 0,
            top_files: if show_top {
                Some(Vec::new())
            } else {
                None
            },
        }
    }

    /// Adds a finished thread's counts to the totals (modulo 2^64) and keeps
    /// its largest files when it has any and top lists are collected.
    pub fn absorb(&mut self, local: LocalScan)
        ensures
            final(self).total_size == add_wrapping(old(self).total_size, local.local_size),
            final(self).total_files == add_wrapping(old(self).total_files, local.local_files),
            final(self).total_dirs == add_wrapping(old(self).total_dirs, local.local_dirs),
            (local.heap is Some && local.heap->0.items().len() > 0 && old(self).top_files is Some)
                ==> ({
                let v = final(self).top_files->0@;
                &&& final(self).top_files is Some
                &&& v.len() == old(self).top_files->0@.len() + 1
                &&& v.take(v.len() - 1) == old(self).top_files->0@
                &&& v.last()@ == local.heap->0.items()
            }),
            !(local.heap is Some && local.heap->0.items().len() > 0 && old(self).top_files is Some)
                ==> final(self).top_files == old(self).top_files,
    {
        self.total_size = self.total_size.wrapping_add(local.local_size);
        self.total_files = self.total_files.wrapping_add(local.local_files);
        self.total_dirs = self.total_dirs.wrapping_add(local.local_dirs);
        if let Some(h) = &local.heap {
            if h.len() > 0 {
                if let Some(v) = &mut self.top_files {
                    let ghost before = v@;
                    v.push(h.to_vec());
                    assert(v@.take(v@.len() - 1) =~= before);
                }
            }
        }
    }
}

/// With an explicit thread count the traversal is serial exactly when at
/// most one thread is asked for; otherwise it is serial when there is no
/// hint of enough parallel work.
pub open spec fn spec_should_walk_serial(threads: Option<usize>, hint: bool) -> bool {
    match threads {
        Some(t) => t <= 1,
        None => !hint,
    }
}

/// Whether the choice of traversal needs the parallelism hint (no explicit thread count).
pub fn needs_parallelism_hint(threads: Option<usize>) -> (r: bool)
    ensures
        r == (threads is None),
{
    threads.is_none()
}

/// Chooses a serial traversal; `hint` is only consulted without an explicit thread count.
pub fn should_walk_serial(threads: Option<usize>, hint: bool) -> (serial: bool)
    ensures
        serial == spec_should_walk_serial(threads, hint),
{
    match threads {
        Some(t) => t <= 1,
        None => !hint,
    }
}

/// The sum of some roots' estimated entry counts.
pub open spec fn sum_estimates(ests: Seq<usize>) -> nat
    decreases ests.len(),
{
    if ests.len() == 0 {
        0
    } else {
        sum_estimates(ests.drop_last()) + ests.last() as nat
    }
}

/// The hint of enough parallel work: at least
/// `PARALLEL_ROOT_PATH_HINT_THRESHOLD` root paths, or root estimates that add
/// up to at least `PARALLEL_ROOT_ENTRY_HINT_THRESHOLD`.
pub open spec fn spec_parallelism_hint(n_paths: nat, ests: Seq<usize>) -> bool {
    n_paths >= PARALLEL_ROOT_PATH_HINT_THRESHOLD || sum_estimates(ests)
        >= PARALLEL_ROOT_ENTRY_HINT_THRESHOLD
}

/// Once the hint holds for the roots estimated so far, it holds whatever the
/// estimates of the other roots: the search may stop there.
pub proof fn lemma_hint_settled(n_paths: nat, seen: Seq<usize>, rest: Seq<usize>)
    requires
        spec_parallelism_hint(n_paths, seen),
    ensures
        spec_parallelism_hint(n_paths, seen + rest),
    decreases rest.len(),
{
    if rest.len() > 0 {
        lemma_hint_settled(n_paths, seen, rest.drop_last());
        assert((seen + rest).drop_last() =~= seen + rest.drop_last());
    }
}

/// The search for the parallelism hint over the roots, fed one root's
/// estimate at a time; it is settled as soon as the hint is found.
pub struct HintSearch {
    n_paths: usize,
    total: usize,
    found: bool,
    seen: Ghost<Seq<usize>>,
}

impl HintSearch {
    /// The number of root paths.
    pub closed spec fn n_paths(self) -> nat {
        self.n_paths as nat
    }

    /// The estimates fed so far, in order.
    pub closed spec fn seen(self) -> Seq<usize> {
        self.seen@
    }

    /// Internal invariant: the flag is the hint over the estimates fed so
    /// far, and while it is not set the running total is their sum.
    pub closed spec fn wf(self) -> bool {
        &&& self.found == spec_parallelism_hint(self.n_paths as nat, self.seen@)
        &&& !self.found ==> self.total == sum_estimates(self.seen@)
    }

    /// A search over `n_paths` roots with no estimate yet; many root paths
    /// settle it at once.
    pub fn new(n_paths: usize) -> (h: HintSearch)
        ensures
            h.wf(),
            h.n_paths() == n_paths,
            h.seen() == Seq::<usize>::empty(),
    {
        HintSearch {
            n_paths,
            total: 0,
            found: n_paths >= PARALLEL_ROOT_PATH_HINT_THRESHOLD,
            seen: Ghost(Seq::empty()),
        }
    }

    /// Whether the hint holds for the estimates fed so far; once it does,
    /// no further root needs estimating.
    pub fn found(&self) -> (r: bool)
        requires
            self.wf(),
        ensures
            r == spec_parallelism_hint(self.n_paths(), self.seen()),
    {
        self.found
    }

    /// Feeds the next root's estimate, while the hint is not yet found.
    pub fn add(&mut self, estimate: usize)
        requires
            old(self).wf(),
            !spec_parallelism_hint(old(self).n_paths(), old(self).seen()),
        ensures
            final(self).wf(),
            final(self).n_paths() == old(self).n_paths(),
            final(self).seen() == old(self).seen().push(estimate),
    {
        let ghost before = self.seen@;
        self.seen = Ghost(self.seen@.push(estimate));
        proof {
            assert(self.seen@.drop_last() =~= before);
        }
        if estimate >= PARALLEL_ROOT_ENTRY_HINT_THRESHOLD - self.total {
            self.found = true;
        } else {
            self.total = self.total + estimate;
        }
    }
}

/// The estimate of a root that is not listed: unreadable metadata counts as
/// the threshold, a non-directory as one entry; `None` means that the
/// directory has to be listed.
pub fn estimate_without_listing(metadata_is_dir: Option<bool>) -> (r: Option<usize>)
    ensures
        metadata_is_dir is None ==> r == Some(PARALLEL_ROOT_ENTRY_HINT_THRESHOLD),
        metadata_is_dir == Some(false) ==> r == Some(1usize),
        metadata_is_dir == Some(true) ==> r is None,
{
    match metadata_is_dir {
        None => Some(PARALLEL_ROOT_ENTRY_HINT_THRESHOLD),
        Some(false) => Some(1),
        Some(true) => None,
    }
}

/// Where the estimate of a root directory starts once its listing is
/// opened: from 1, for the directory itself, with entries still to count;
/// a listing that cannot be opened gives the threshold, and that is final.
pub fn begin_listing(listed: bool) -> (r: (usize, bool))
    ensures
        listed ==> r == (1usize, false),
        !listed ==> r == (PARALLEL_ROOT_ENTRY_HINT_THRESHOLD, true),
{
    if listed {
        (1, false)
    } else {
        (PARALLEL_ROOT_ENTRY_HINT_THRESHOLD, true)
    }
}

/// Counts one entry of a listed root directory (starting from 1 for the
/// directory itself); hidden entries do not count when they are ignored.
/// The second result says that the count reached the threshold.
pub fn count_root_entry(total: usize, ignore_hidden: bool, hidden: bool) -> (r: (usize, bool))
    requires
        total < PARALLEL_ROOT_ENTRY_HINT_THRESHOLD,
    ensures
        ignore_hidden && hidden ==> r == (total, false),
        !(ignore_hidden && hidden) ==> r.0 == total + 1 && r.1 == (r.0
            >= PARALLEL_ROOT_ENTRY_HINT_THRESHOLD),
        (r.0 as nat, r.1) == root_entry_step(total as nat, ignore_hidden, hidden),
{
    if ignore_hidden && hidden {
        (total, false)
    } else {
        let t = total + 1;
        (t, t >= PARALLEL_ROOT_ENTRY_HINT_THRESHOLD)
    }
}

/// A file name is hidden when it is valid text that starts with a dot.
pub fn is_hidden_name(name: Option<&str>) -> (hidden: bool)
    ensures
        hidden == (name matches Some(n) && n@.len() > 0 && n@[0] == '.'),
{
    match name {
        Some(n) => {
            if n.is_empty() {
                false
            } else {
                n.get_char(0) == '.'
            }
        },
        None => false,
    }
}

/// The totals after absorbing, one after the other and starting from zero,
/// threads whose counters are `locals`.
pub open spec fn absorbed(locals: Seq<(u64, u64, u64)>) -> (u64, u64, u64)
    decreases locals.len(),
{
    if locals.len() == 0 {
        (0, 0, 0)
    } else {
        let t = absorbed(locals.drop_last());
        let l = locals.last();
        (add_wrapping(t.0, l.0), add_wrapping(t.1, l.1), add_wrapping(t.2, l.2))
    }
}

/// The counters of threads that walked the given entries.
pub open spec fn thread_counts(threads: Seq<Seq<(Option<bool>, Option<(bool, u64)>)>>) -> Seq<
    (u64, u64, u64),
> {
    threads.map_values(
        |s: Seq<(Option<bool>, Option<(bool, u64)>)>|
            (tally(s).0 as u64, tally(s).1 as u64, tally(s).2 as u64),
    )
}

/// The entries of all threads, one thread after the other.
pub open spec fn all_entries(threads: Seq<Seq<(Option<bool>, Option<(bool, u64)>)>>) -> Seq<
    (Option<bool>, Option<(bool, u64)>),
>
    decreases threads.len(),
{
    if threads.len() == 0 {
        Seq::empty()
    } else {
        all_entries(threads.drop_last()) + threads.last()
    }
}

/// Counts modulo 2^64.
pub open spec fn wrap_counts(c: (nat, nat, nat)) -> (u64, u64, u64) {
    (
        (c.0 % 0x1_0000_0000_0000_0000) as u64,
        (c.1 % 0x1_0000_0000_0000_0000) as u64,
        (c.2 % 0x1_0000_0000_0000_0000) as u64,
    )
}

/// Each thread's counters hold their entries' counts without overflow.
pub open spec fn threads_fit(threads: Seq<Seq<(Option<bool>, Option<(bool, u64)>)>>) -> bool {
    forall|t: int|
        0 <= t < threads.len() ==> #[trigger] tally(threads[t]).0 <= u64::MAX && tally(threads[t]).1
            <= u64::MAX && tally(threads[t]).2 <= u64::MAX
}

proof fn lemma_add_wrapping_mod(a: nat, b: u64)
    requires
        a < 0x1_0000_0000_0000_0000,
    ensures
        add_wrapping(a as u64, b) == ((a + b) % 0x1_0000_0000_0000_0000) as u64,
{
}

proof fn lemma_mod_add(x: nat, y: nat)
    ensures
        ((x % 0x1_0000_0000_0000_0000) + y) % 0x1_0000_0000_0000_0000 == (x + y)
            % 0x1_0000_0000_0000_0000,
{
    vstd::arithmetic::div_mod::lemma_add_mod_noop(x as int, y as int, 0x1_0000_0000_0000_0000);
    vstd::arithmetic::div_mod::lemma_mod_twice(y as int, 0x1_0000_0000_0000_0000);
    vstd::arithmetic::div_mod::lemma_add_mod_noop(
        (x % 0x1_0000_0000_0000_0000) as int,
        y as int,
        0x1_0000_0000_0000_0000,
    );
    vstd::arithmetic::div_mod::lemma_mod_twice(x as int, 0x1_0000_0000_0000_0000);
}

/// The counts of two runs of entries, one after the other, add up.
pub proof fn lemma_tally_append(
    s: Seq<(Option<bool>, Option<(bool, u64)>)>,
    t: Seq<(Option<bool>, Option<(bool, u64)>)>,
)
    ensures
        tally(s + t) == add_counts(tally(s), tally(t)),
    decreases t.len(),
{
    if t.len() == 0 {
        assert(s + t =~= s);
    } else {
        lemma_tally_append(s, t.drop_last());
        assert((s + t).drop_last() =~= s + t.drop_last());
        assert((s + t).last() == t.last());
    }
}

proof fn lemma_tally_remove(t: Seq<(Option<bool>, Option<(bool, u64)>)>, k: int)
    requires
        0 <= k < t.len(),
    ensures
        tally(t) == add_counts(tally(t.remove(k)), entry_counts(t[k])),
{
    let a = t.take(k);
    let b = t.skip(k + 1);
    assert(t =~= a + seq![t[k]] + b);
    assert(t.remove(k) =~= a + b);
    lemma_tally_append(a + seq![t[k]], b);
    lemma_tally_append(a, seq![t[k]]);
    lemma_tally_append(a, b);
    let one = seq![t[k]];
    assert(one.drop_last() =~= Seq::<(Option<bool>, Option<(bool, u64)>)>::empty());
    assert(tally(one.drop_last()) == (0nat, 0nat, 0nat));
    assert(tally(one) == add_counts((0nat, 0nat, 0nat), entry_counts(t[k])));
    let ta = tally(a);
    let tb = tally(b);
    let e = entry_counts(t[k]);
    assert(tally(t) == add_counts(add_counts(ta, e), tb));
    assert(tally(t.remove(k)) == add_counts(ta, tb));
}

/// The counts of some entries do not depend on their order.
pub proof fn lemma_tally_multiset(
    s: Seq<(Option<bool>, Option<(bool, u64)>)>,
    t: Seq<(Option<bool>, Option<(bool, u64)>)>,
)
    requires
        s.to_multiset() == t.to_multiset(),
    ensures
        tally(s) == tally(t),
    decreases s.len(),
{
    broadcast use vstd::seq_lib::group_to_multiset_ensures;

    if s.len() == 0 {
        assert(t.to_multiset().len() == 0);
        assert(t.len() == 0);
    } else {
        let x = s.last();
        let s1 = s.drop_last();
        assert(s =~= s1.push(x));
        assert(t.to_multiset().count(x) > 0);
        assert(t.contains(x));
        let k = choose|k: int| 0 <= k < t.len() && t[k] == x;
        let t1 = t.remove(k);
        vstd::seq_lib::to_multiset_remove(t, k);
        assert(s1.to_multiset() =~= t1.to_multiset());
        lemma_tally_multiset(s1, t1);
        lemma_tally_remove(t, k);
    }
}

proof fn lemma_absorbed_is_sum(threads: Seq<Seq<(Option<bool>, Option<(bool, u64)>)>>)
    requires
        threads_fit(threads),
    ensures
        absorbed(thread_counts(threads)) == wrap_counts(tally(all_entries(threads))),
    decreases threads.len(),
{
    if threads.len() == 0 {
        assert(thread_counts(threads).len() == 0);
    } else {
        let tp = threads.drop_last();
        assert(threads_fit(tp)) by {
            assert forall|t: int| 0 <= t < tp.len() implies #[trigger] tally(tp[t]).0 <= u64::MAX
                && tally(tp[t]).1 <= u64::MAX && tally(tp[t]).2 <= u64::MAX by {
                assert(tp[t] == threads[t]);
            }
        }
        lemma_absorbed_is_sum(tp);
        assert(thread_counts(threads).drop_last() =~= thread_counts(tp));
        let last = threads.last();
        assert(tally(threads[threads.len() - 1]).0 <= u64::MAX);
        lemma_tally_append(all_entries(tp), last);
        let p = tally(all_entries(tp));
        let l = tally(last);
        lemma_add_wrapping_mod(p.0 % 0x1_0000_0000_0000_0000, l.0 as u64);
        lemma_add_wrapping_mod(p.1 % 0x1_0000_0000_0000_0000, l.1 as u64);
        lemma_add_wrapping_mod(p.2 % 0x1_0000_0000_0000_0000, l.2 as u64);
        lemma_mod_add(p.0, l.0);
        lemma_mod_add(p.1, l.1);
        lemma_mod_add(p.2, l.2);
    }
}

/// However the walked entries are spread over traversal threads (a serial
/// walk being one thread), absorbing every thread's counters gives the same
/// totals: the counts of all entries, modulo 2^64.
pub proof fn lemma_totals_split_free(
    threads1: Seq<Seq<(Option<bool>, Option<(bool, u64)>)>>,
    threads2: Seq<Seq<(Option<bool>, Option<(bool, u64)>)>>,
)
    requires
        all_entries(threads1).to_multiset() == all_entries(threads2).to_multiset(),
        threads_fit(threads1),
        threads_fit(threads2),
    ensures
        absorbed(thread_counts(threads1)) == absorbed(thread_counts(threads2)),
        absorbed(thread_counts(threads1)) == wrap_counts(tally(all_entries(threads1))),
{
    lemma_absorbed_is_sum(threads1);
    lemma_absorbed_is_sum(threads2);
    lemma_tally_multiset(all_entries(threads1), all_entries(threads2));
}

/// One step of counting the entries of a listed root directory, as
/// `count_root_entry` takes it: the new count, and whether it reached the
/// threshold.
pub open spec fn root_entry_step(total: nat, ignore_hidden: bool, hidden: bool) -> (nat, bool) {
    if ignore_hidden && hidden {
        (total, false)
    } else {
        (total + 1, total + 1 >= PARALLEL_ROOT_ENTRY_HINT_THRESHOLD)
    }
}

/// The count reached by stepping through a listing whose entries have the
/// given hidden flags, from `total`, stopping as soon as the threshold is
/// reached.
pub open spec fn listing_count(total: nat, ignore_hidden: bool, hidden: Seq<bool>) -> nat
    decreases hidden.len(),
{
    if hidden.len() == 0 {
        total
    } else {
        let r = root_entry_step(total, ignore_hidden, hidden[0]);
        if r.1 {
            r.0
        } else {
            listing_count(r.0, ignore_hidden, hidden.drop_first())
        }
    }
}

/// The entries of a listing that count: all of them, or the ones that are
/// not hidden when hidden entries are ignored.
pub open spec fn visible_count(ignore_hidden: bool, hidden: Seq<bool>) -> nat
    decreases hidden.len(),
{
    if hidden.len() == 0 {
        0
    } else {
        (if ignore_hidden && hidden[0] {
            0nat
        } else {
            1nat
        }) + visible_count(ignore_hidden, hidden.drop_first())
    }
}

/// The estimate of a listed root directory: one for the directory itself
/// plus the entries that count, at most the threshold.
pub open spec fn spec_root_estimate(ignore_hidden: bool, hidden: Seq<bool>) -> nat {
    let c = 1 + visible_count(ignore_hidden, hidden);
    if c < PARALLEL_ROOT_ENTRY_HINT_THRESHOLD {
        c
    } else {
        PARALLEL_ROOT_ENTRY_HINT_THRESHOLD as nat
    }
}

/// Stepping through a listing from a count below the threshold adds the
/// entries that count, up to the threshold.
pub proof fn lemma_listing_count(total: nat, ignore_hidden: bool, hidden: Seq<bool>)
    requires
        total < PARALLEL_ROOT_ENTRY_HINT_THRESHOLD,
    ensures
        listing_count(total, ignore_hidden, hidden) == (if total + visible_count(ignore_hidden, hidden)
            < PARALLEL_ROOT_ENTRY_HINT_THRESHOLD {
            total + visible_count(ignore_hidden, hidden)
        } else {
            PARALLEL_ROOT_ENTRY_HINT_THRESHOLD as nat
        }),
    decreases hidden.len(),
{
    if hidden.len() > 0 {
        let r = root_entry_step(total, ignore_hidden, hidden[0]);
        if !r.1 {
            lemma_listing_count(r.0, ignore_hidden, hidden.drop_first());
        }
    }
}

/// The estimate of a listed root: stepping `count_root_entry` from where
/// `begin_listing` starts (1) over the whole listing, stopping at the
/// threshold, gives one plus the entries that count, at most the threshold.
pub proof fn lemma_root_estimate(ignore_hidden: bool, hidden: Seq<bool>)
    ensures
        listing_count(1, ignore_hidden, hidden) == spec_root_estimate(ignore_hidden, hidden),
{
    lemma_listing_count(1, ignore_hidden, hidden);
}

/// How walked entries count: an entry whose file type says "directory", or
/// whose metadata says so, is one directory; any other entry with metadata
/// is one file of its length, whatever the length, zero included; an entry
/// without metadata counts for nothing.
pub proof fn lemma_entry_counts(file_type_is_dir: Option<bool>, metadata: Option<(bool, u64)>)
    ensures
        file_type_is_dir == Some(true) ==> entry_counts((file_type_is_dir, metadata)) == (0nat, 0nat, 1nat),
        metadata is Some && metadata.unwrap().0 ==> entry_counts((file_type_is_dir, metadata)) == (
            0nat,
            0nat,
            1nat,
        ),
        file_type_is_dir != Some(true) && metadata is Some && !metadata.unwrap().0 ==> entry_counts(
            (file_type_is_dir, metadata),
        ) == (metadata.unwrap().1 as nat, 1nat, 0nat) && entry_kind(file_type_is_dir, metadata)
            == EntryKind::File(metadata.unwrap().1),
        file_type_is_dir != Some(true) && metadata is None ==> entry_counts(
            (file_type_is_dir, metadata),
        ) == (0nat, 0nat, 0nat),
{
}

} // verus!
