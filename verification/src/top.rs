//! Selection of the largest files seen during a scan.
//!
//! A file is ranked by the pair `(size, key)`, compared first by size and then
//! by key; the key is an integer that the caller chose to stand for the file's
//! path.

use vstd::prelude::*;
use vstd::multiset::Multiset;

verus! {

broadcast use {vstd::seq_lib::group_to_multiset_ensures, vstd::multiset::group_multiset_axioms};

/// `a` ranks at most as high as `b`: smaller size, or equal size and key not larger.
pub open spec fn rank_le(a: (u64, u64), b: (u64, u64)) -> bool {
    a.0 < b.0 || (a.0 == b.0 && a.1 <= b.1)
}

/// The items are in descending rank order.
pub open spec fn sorted_desc(s: Seq<(u64, u64)>) -> bool {
    forall|i: int, j: int| 0 <= i < j < s.len() ==> rank_le(#[trigger] s[j], #[trigger] s[i])
}

/// `kept` holds the `n` highest-ranked of `all` (all of them when there are
/// fewer), in descending rank order; each item that was left out ranks no
/// higher than any kept one.
pub open spec fn is_top_by_rank(all: Multiset<(u64, u64)>, kept: Seq<(u64, u64)>, n: nat) -> bool {
    &&& sorted_desc(kept)
    &&& kept.to_multiset().subset_of(all)
    &&& kept.len() == if all.len() < n { all.len() } else { n }
    &&& forall|x: (u64, u64)|
        all.count(x) > kept.to_multiset().count(x) ==> forall|j: int|
            0 <= j < kept.len() ==> rank_le(x, #[trigger] kept[j])
}

/// `kept` holds `n` of the largest files of `all` by size (all of them when
/// there are fewer), in descending rank order; each item that was left out is
/// no larger than any kept one.
pub open spec fn is_top_by_size(all: Multiset<(u64, u64)>, kept: Seq<(u64, u64)>, n: nat) -> bool {
    &&& sorted_desc(kept)
    &&& kept.to_multiset().subset_of(all)
    &&& kept.len() == if all.len() < n { all.len() } else { n }
    &&& forall|x: (u64, u64)|
        all.count(x) > kept.to_multiset().count(x) ==> forall|j: int|
            0 <= j < kept.len() ==> x.0 <= (#[trigger] kept[j]).0
}

proof fn lemma_not_above_at(all: Multiset<(u64, u64)>, a: Seq<(u64, u64)>, b: Seq<(u64, u64)>, n: nat, j: int)
    requires
        is_top_by_rank(all, a, n),
        is_top_by_rank(all, b, n),
        0 <= j < a.len(),
        forall|k: int| 0 <= k < j ==> a[k] == b[k],
    ensures
        rank_le(a[j], b[j]),
{
    let x = a[j];
    if !rank_le(x, b[j]) {
        let pre = a.take(j);
        assert(b.take(j) =~= pre);
        assert(a =~= pre + a.skip(j));
        assert(b =~= pre + b.skip(j));
        vstd::seq_lib::lemma_multiset_commutative(pre, a.skip(j));
        vstd::seq_lib::lemma_multiset_commutative(pre, b.skip(j));
        a.skip(j).to_multiset_ensures();
        b.skip(j).to_multiset_ensures();
        assert(a.skip(j)[0] == x);
        assert(a.skip(j).contains(x));
        assert(!b.skip(j).contains(x)) by {
            if b.skip(j).contains(x) {
                let k = choose|k: int| 0 <= k < b.skip(j).len() && b.skip(j)[k] == x;
                assert(b.skip(j)[k] == b[j + k]);
                if k > 0 {
                    assert(rank_le(b[j + k], b[j]));
                }
            }
        }
        assert(a.to_multiset().count(x) > b.to_multiset().count(x));
        assert(all.count(x) >= a.to_multiset().count(x));
        assert(rank_le(x, b[j]));
    }
}

proof fn lemma_equal_prefix(all: Multiset<(u64, u64)>, a: Seq<(u64, u64)>, b: Seq<(u64, u64)>, n: nat, i: int)
    requires
        is_top_by_rank(all, a, n),
        is_top_by_rank(all, b, n),
        0 <= i <= a.len(),
    ensures
        forall|k: int| 0 <= k < i ==> a[k] == b[k],
    decreases i,
{
    if i > 0 {
        lemma_equal_prefix(all, a, b, n, i - 1);
        lemma_not_above_at(all, a, b, n, i - 1);
        lemma_not_above_at(all, b, a, n, i - 1);
    }
}

/// The `n` highest-ranked files of a collection are one list: two lists that
/// both hold them are equal. So the merged top list does not depend on how
/// the files were spread over the traversal threads.
pub proof fn lemma_top_by_rank_unique(
    all: Multiset<(u64, u64)>,
    a: Seq<(u64, u64)>,
    b: Seq<(u64, u64)>,
    n: nat,
)
    requires
        is_top_by_rank(all, a, n),
        is_top_by_rank(all, b, n),
    ensures
        a == b,
{
    lemma_equal_prefix(all, a, b, n, a.len() as int);
    assert(a =~= b);
}

/// What an offer did to the kept files.
pub enum TopChange {
    /// The file was added; nothing left.
    Inserted,
    /// The file was added and the kept file with this key left.
    Replaced(u64),
    /// The file was not kept.
    Rejected,
}

/// The kept file that leaves to make room, the kept files being in descending
/// rank order: the one of the least size with key `drop_key` when there is
/// one, else the lowest-ranked.
pub open spec fn victim(items: Seq<(u64, u64)>, drop_key: u64) -> (u64, u64) {
    if items.contains((items.last().0, drop_key)) {
        (items.last().0, drop_key)
    } else {
        items.last()
    }
}

/// `keys` are the keys of the kept files of the least size: each is the key of
/// such a file, and every such file's key is among them.
pub open spec fn least_keys_are(items: Seq<(u64, u64)>, keys: Seq<u64>) -> bool {
    &&& forall|k: int| 0 <= k < keys.len() ==> items.contains((items.last().0, #[trigger] keys[k]))
    &&& forall|j: int|
        0 <= j < items.len() && (#[trigger] items[j]).0 == items.last().0 ==> keys.contains(
            items[j].1,
        )
}

/// One offer of a file of `size` bytes with key `key`: while fewer than
/// `limit` files are kept it is added; otherwise, when it is strictly larger
/// than the smallest kept file, it takes the place of the victim named by
/// `drop_key`; when it is not, it is rejected.
pub open spec fn offer_step(
    before: TopFiles,
    after: TopFiles,
    size: u64,
    key: u64,
    drop_key: u64,
    change: TopChange,
) -> bool {
    if before.items().len() < before.limit() {
        change == TopChange::Inserted && after.items().to_multiset()
            == before.items().to_multiset().insert((size, key))
    } else if before.limit() > 0 && size > before.items().last().0 {
        let v = victim(before.items(), drop_key);
        change == TopChange::Replaced(v.1) && after.items().to_multiset()
            == before.items().to_multiset().remove(v).insert((size, key))
    } else {
        change == TopChange::Rejected && after.items() == before.items()
    }
}

/// One push of a file of `size` bytes with key `key` followed, when more than
/// `limit` files are then held, by dropping one of the smallest: while fewer
/// than `limit` files are kept it is added; a file strictly larger than the
/// smallest kept one takes the place of the victim named by `drop_key`; a
/// file as large as the smallest kept one takes the place of the kept file
/// of that size with key `drop_key`, when there is one and `drop_key` is not
/// `key`; otherwise the file itself is dropped.
pub open spec fn push_step(
    before: TopFiles,
    after: TopFiles,
    size: u64,
    key: u64,
    drop_key: u64,
    change: TopChange,
) -> bool {
    let least = before.items().last().0;
    if before.items().len() < before.limit() {
        change == TopChange::Inserted && after.items().to_multiset()
            == before.items().to_multiset().insert((size, key))
    } else if before.limit() > 0 && (size > least || (size == least && drop_key != key
        && before.items().contains((least, drop_key)))) {
        let v = victim(before.items(), drop_key);
        change == TopChange::Replaced(v.1) && after.items().to_multiset()
            == before.items().to_multiset().remove(v).insert((size, key))
    } else {
        change == TopChange::Rejected && after.items() == before.items()
    }
}

/// At most `limit` files, kept in descending rank order, out of all files offered.
pub struct TopFiles {
    limit: usize,
    items: Vec<(u64, u64)>,
    dropped: Ghost<Multiset<(u64, u64)>>,
}

impl TopFiles {
    /// The most files kept.
    pub closed spec fn limit(self) -> nat {
        self.limit as nat
    }

    /// The kept files, in descending rank order.
    pub closed spec fn items(self) -> Seq<(u64, u64)> {
        self.items@
    }

    /// Every file offered so far.
    pub closed spec fn offered(self) -> Multiset<(u64, u64)> {
        self.items@.to_multiset().add(self.dropped@)
    }

    closed spec fn wf_common(self) -> bool {
        &&& self.items@.len() <= self.limit
        &&& sorted_desc(self.items@)
        &&& self.dropped@.len() > 0 ==> self.items@.len() == self.limit
    }

    /// Internal invariant of a selection by size (the scan-time selection).
    pub closed spec fn wf_by_size(self) -> bool {
        &&& self.wf_common()
        &&& forall|x: (u64, u64)|
            self.dropped@.count(x) > 0 ==> forall|j: int|
                0 <= j < self.items@.len() ==> x.0 <= (#[trigger] self.items@[j]).0
    }

    /// Internal invariant of a selection by rank (the final merge).
    pub closed spec fn wf_by_rank(self) -> bool {
        &&& self.wf_common()
        &&& forall|x: (u64, u64)|
            self.dropped@.count(x) > 0 ==> forall|j: int|
                0 <= j < self.items@.len() ==> rank_le(x, #[trigger] self.items@[j])
    }

    /// A selection that keeps at most `limit` files and has seen none.
    pub fn new(limit: usize) -> (t: TopFiles)
        ensures
            t.limit() == limit,
            t.items() == Seq::<(u64, u64)>::empty(),
            t.offered() == Multiset::<(u64, u64)>::empty(),
            t.wf_by_size(),
            t.wf_by_rank(),
    {
        let t = TopFiles { limit, items: Vec::new(), dropped: Ghost(Multiset::empty()) };
        assert(t.offered() =~= Multiset::empty());
        t
    }

    /// The number of kept files.
    pub fn len(&self) -> (n: usize)
        ensures
            n == self.items().len(),
    {
        self.items.len()
    }

    /// The kept files, largest first.
    pub fn to_vec(&self) -> (v: Vec<(u64, u64)>)
        ensures
            v@ == self.items(),
    {
        let mut v: Vec<(u64, u64)> = Vec::new();
        let mut i: usize = 0;
        while i < self.items.len()
            invariant
                i <= self.items@.len(),
                v@ == self.items@.take(i as int),
            decreases self.items@.len() - i,
        {
            v.push(self.items[i]);
            i = i + 1;
            assert(v@ =~= self.items@.take(i as int));
        }
        assert(v@ =~= self.items@);
        v
    }

    /// A well-formed selection by size keeps `limit` of the largest files offered.
    pub proof fn lemma_top_by_size(self)
        requires
            self.wf_by_size(),
        ensures
            is_top_by_size(self.offered(), self.items(), self.limit()),
    {
        self.lemma_counts();
    }

    /// A well-formed selection by rank keeps the `limit` highest-ranked files offered.
    pub proof fn lemma_top_by_rank(self)
        requires
            self.wf_by_rank(),
        ensures
            is_top_by_rank(self.offered(), self.items(), self.limit()),
    {
        self.lemma_counts();
    }

    proof fn lemma_counts(self)
        requires
            self.wf_common(),
        ensures
            self.items@.to_multiset().subset_of(self.offered()),
            self.offered().len() == self.items@.len() + self.dropped@.len(),
            forall|x: (u64, u64)|
                self.offered().count(x) > self.items@.to_multiset().count(x) ==> self.dropped@.count(
                    x,
                ) > 0,
            self.items@.len() == if self.offered().len() < self.limit {
                self.offered().len()
            } else {
                self.limit as nat
            },
    {
    }

    /// The position at which `x` goes to keep the items in descending rank order.
    fn insert_position(&self, x: (u64, u64)) -> (pos: usize)
        requires
            sorted_desc(self.items@),
        ensures
            pos <= self.items@.len(),
            forall|k: int| 0 <= k < pos ==> rank_le(x, #[trigger] self.items@[k]),
            forall|k: int| pos <= k < self.items@.len() ==> rank_le(#[trigger] self.items@[k], x),
    {
        let mut pos: usize = 0;
        while pos < self.items.len() && rank_le_exec(x, self.items[pos])
            invariant
                pos <= self.items@.len(),
                sorted_desc(self.items@),
                forall|k: int| 0 <= k < pos ==> rank_le(x, #[trigger] self.items@[k]),
            decreases self.items@.len() - pos,
        {
            pos = pos + 1;
        }
        pos
    }

    /// Inserts `x` in its rank position.
    fn insert_sorted(&mut self, x: (u64, u64)) -> (pos: usize)
        requires
            sorted_desc(old(self).items@),
        ensures
            pos <= old(self).items@.len(),
            final(self).items@ == old(self).items@.insert(pos as int, x),
            sorted_desc(final(self).items@),
            final(self).items@.to_multiset() == old(self).items@.to_multiset().insert(x),
            final(self).items@.len() == old(self).items@.len() + 1,
            final(self).limit == old(self).limit,
            final(self).dropped == old(self).dropped,
            forall|y: (u64, u64)|
                (forall|j: int|
                    0 <= j < old(self).items@.len() ==> rank_le(y, #[trigger] old(self).items@[j]))
                    && rank_le(y, x) ==> forall|j: int|
                    0 <= j < final(self).items@.len() ==> rank_le(y, #[trigger] final(self).items@[j]),
            forall|y: (u64, u64)|
                (forall|j: int|
                    0 <= j < old(self).items@.len() ==> y.0 <= (#[trigger] old(self).items@[j]).0)
                    && y.0 <= x.0 ==> forall|j: int|
                    0 <= j < final(self).items@.len() ==> y.0 <= (#[trigger] final(self).items@[j]).0,
    {
        let pos = self.insert_position(x);
        let ghost old_items = self.items@;
        self.items.insert(pos, x);
        proof {
            let s = self.items@;
            assert(s == old_items.insert(pos as int, x));
            assert forall|i: int, j: int| 0 <= i < j < s.len() implies rank_le(
                #[trigger] s[j],
                #[trigger] s[i],
            ) by {
                if j < pos {
                } else if j == pos {
                } else if i < pos {
                    assert(s[j] == old_items[j - 1]);
                    assert(rank_le(old_items[j - 1], x));
                } else if i == pos {
                    assert(s[j] == old_items[j - 1]);
                } else {
                    assert(s[j] == old_items[j - 1]);
                    assert(s[i] == old_items[i - 1]);
                }
            }
            assert forall|y: (u64, u64)|
                (forall|j: int| 0 <= j < old_items.len() ==> rank_le(y, #[trigger] old_items[j]))
                    && rank_le(y, x) implies forall|j: int|
                0 <= j < s.len() ==> rank_le(y, #[trigger] s[j]) by {
                assert forall|j: int| 0 <= j < s.len() implies rank_le(y, #[trigger] s[j]) by {
                    if j < pos {
                        assert(s[j] == old_items[j]);
                    } else if j > pos {
                        assert(s[j] == old_items[j - 1]);
                    }
                }
            }
            assert forall|y: (u64, u64)|
                (forall|j: int| 0 <= j < old_items.len() ==> y.0 <= (#[trigger] old_items[j]).0)
                    && y.0 <= x.0 implies forall|j: int| 0 <= j < s.len() ==> y.0 <= (#[trigger] s[j]).0 by {
                assert forall|j: int| 0 <= j < s.len() implies y.0 <= (#[trigger] s[j]).0 by {
                    if j < pos {
                        assert(s[j] == old_items[j]);
                    } else if j > pos {
                        assert(s[j] == old_items[j - 1]);
                    }
                }
            }
        }
        pos
    }

    /// Removes and returns the lowest-ranked kept file.
    fn pop_lowest(&mut self) -> (m: (u64, u64))
        requires
            old(self).items@.len() > 0,
            sorted_desc(old(self).items@),
        ensures
            m == old(self).items@.last(),
            final(self).items@ == old(self).items@.drop_last(),
            sorted_desc(final(self).items@),
            final(self).items@.to_multiset() == old(self).items@.to_multiset().remove(m),
            final(self).limit == old(self).limit,
            final(self).dropped == old(self).dropped,
            forall|j: int|
                0 <= j < old(self).items@.len() ==> rank_le(m, #[trigger] old(self).items@[j]),
    {
        let ghost old_items = self.items@;
        let m = self.items.pop().unwrap();
        proof {
            assert(old_items.drop_last() =~= old_items.remove(old_items.len() - 1));
            assert forall|j: int| 0 <= j < old_items.len() implies rank_le(
                m,
                #[trigger] old_items[j],
            ) by {
                if j < old_items.len() - 1 {
                    assert(rank_le(old_items[old_items.len() - 1], old_items[j]));
                }
            }
        }
        m
    }

    /// Removes and returns the kept file at position `j`.
    fn remove_at(&mut self, j: usize) -> (m: (u64, u64))
        requires
            j < old(self).items@.len(),
            sorted_desc(old(self).items@),
        ensures
            m == old(self).items@[j as int],
            final(self).items@ == old(self).items@.remove(j as int),
            sorted_desc(final(self).items@),
            final(self).items@.to_multiset() == old(self).items@.to_multiset().remove(m),
            final(self).limit == old(self).limit,
            final(self).dropped == old(self).dropped,
    {
        let ghost old_items = self.items@;
        let m = self.items.remove(j);
        proof {
            vstd::seq_lib::to_multiset_remove(old_items, j as int);
            let s = self.items@;
            assert forall|a: int, b: int| 0 <= a < b < s.len() implies rank_le(
                #[trigger] s[b],
                #[trigger] s[a],
            ) by {
                let a2 = if a < j {
                    a
                } else {
                    a + 1
                };
                let b2 = if b < j {
                    b
                } else {
                    b + 1
                };
                assert(s[a] == old_items[a2]);
                assert(s[b] == old_items[b2]);
            }
        }
        m
    }

    /// The position of the victim named by `drop_key`.
    fn victim_index(&self, drop_key: u64) -> (j: usize)
        requires
            self.items@.len() > 0,
            sorted_desc(self.items@),
        ensures
            j < self.items@.len(),
            self.items@[j as int] == victim(self.items@, drop_key),
    {
        let n = self.items.len();
        let least = self.items[n - 1].0;
        let mut i: usize = n;
        while i > 0 && self.items[i - 1].0 == least
            invariant
                i <= n,
                n == self.items@.len(),
                n > 0,
                least == self.items@.last().0,
                forall|k: int| i <= k < n ==> (#[trigger] self.items@[k]) != (least, drop_key),
            decreases i,
        {
            if self.items[i - 1].1 == drop_key {
                proof {
                    assert(self.items@[i - 1] == (least, drop_key));
                    assert(self.items@.contains((least, drop_key)));
                }
                return i - 1;
            }
            i = i - 1;
        }
        proof {
            if self.items@.contains((least, drop_key)) {
                let k = choose|k: int| 0 <= k < n && self.items@[k] == (least, drop_key);
                assert(k < i);
                if i - 1 < n - 1 {
                    assert(rank_le(self.items@[n - 1], self.items@[i - 1]));
                }
                if k < i - 1 {
                    assert(rank_le(self.items@[i - 1], self.items@[k]));
                }
            }
        }
        n - 1
    }

    /// The keys of the kept files of the least size.
    fn least_keys(&self) -> (keys: Vec<u64>)
        requires
            self.items@.len() > 0,
            sorted_desc(self.items@),
        ensures
            least_keys_are(self.items@, keys@),
    {
        let mut keys: Vec<u64> = Vec::new();
        let n = self.items.len();
        let least = self.items[n - 1].0;
        let mut i: usize = n;
        while i > 0 && self.items[i - 1].0 == least
            invariant
                i <= n,
                n == self.items@.len(),
                n > 0,
                least == self.items@.last().0,
                forall|k: int| 0 <= k < keys@.len() ==> self.items@.contains((least, #[trigger] keys@[k])),
                forall|j: int| i <= j < n ==> keys@.contains((#[trigger] self.items@[j]).1),
            decreases i,
        {
            let ghost before = keys@;
            keys.push(self.items[i - 1].1);
            proof {
                assert(self.items@[i - 1] == (least, keys@[keys@.len() - 1]));
                assert forall|k: int| 0 <= k < keys@.len() implies self.items@.contains(
                    (least, #[trigger] keys@[k]),
                ) by {
                    if k < before.len() {
                        assert(keys@[k] == before[k]);
                    } else {
                        assert(self.items@[i - 1] == (least, keys@[k]));
                    }
                }
                assert forall|j: int| i - 1 <= j < n implies keys@.contains((#[trigger] self.items@[j]).1) by {
                    if j == i - 1 {
                        assert(keys@[keys@.len() - 1] == self.items@[j].1);
                    } else {
                        let k = choose|k: int| 0 <= k < before.len() && before[k] == self.items@[j].1;
                        assert(keys@[k] == before[k]);
                    }
                }
            }
            i = i - 1;
        }
        proof {
            assert forall|j: int|
                0 <= j < n && (#[trigger] self.items@[j]).0 == least implies keys@.contains(
                self.items@[j].1,
            ) by {
                if j < i {
                    if i - 1 < n - 1 {
                        assert(rank_le(self.items@[n - 1], self.items@[i - 1]));
                    }
                    if j < i - 1 {
                        assert(rank_le(self.items@[i - 1], self.items@[j]));
                    }
                }
            }
        }
        keys
    }

    /// The keys among which the caller names the file that leaves when a file
    /// of `size` bytes is offered: those of the kept files of the least size
    /// when every place is taken and `size` is larger than that size; none
    /// otherwise.
    pub fn offer_candidates(&self, size: u64) -> (keys: Vec<u64>)
        requires
            self.wf_by_size(),
        ensures
            self.items().len() >= self.limit() && self.limit() > 0 && size > self.items().last().0
                ==> least_keys_are(self.items(), keys@),
            !(self.items().len() >= self.limit() && self.limit() > 0 && size
                > self.items().last().0) ==> keys@.len() == 0,
    {
        if self.items.len() >= self.limit && self.limit > 0 && size > self.items[self.items.len() - 1].0 {
            self.least_keys()
        } else {
            Vec::new()
        }
    }

    /// The keys among which the caller names the file that leaves when a file
    /// of `size` bytes is pushed: those of the kept files of the least size
    /// when every place is taken and `size` is at least that size; none
    /// otherwise.
    pub fn push_candidates(&self, size: u64) -> (keys: Vec<u64>)
        requires
            self.wf_by_size(),
        ensures
            self.items().len() >= self.limit() && self.limit() > 0 && size >= self.items().last().0
                ==> least_keys_are(self.items(), keys@),
            !(self.items().len() >= self.limit() && self.limit() > 0 && size
                >= self.items().last().0) ==> keys@.len() == 0,
    {
        if self.items.len() >= self.limit && self.limit > 0 && size >= self.items[self.items.len() - 1].0 {
            self.least_keys()
        } else {
            Vec::new()
        }
    }

    /// The least size among the kept files, when any is kept.
    pub fn least_size(&self) -> (least: Option<u64>)
        ensures
            self.items().len() == 0 ==> least is None,
            self.items().len() > 0 ==> least == Some(self.items().last().0),
    {
        if self.items.len() == 0 {
            None
        } else {
            Some(self.items[self.items.len() - 1].0)
        }
    }

    /// Puts `x` in the place of the kept file at position `j`, one of the
    /// smallest, in a selection by size whose places are all taken.
    fn replace_at(&mut self, j: usize, x: (u64, u64)) -> (m: (u64, u64))
        requires
            old(self).wf_by_size(),
            old(self).items@.len() == old(self).limit > 0,
            j < old(self).items@.len(),
            old(self).items@[j as int].0 == old(self).items@.last().0,
            x.0 >= old(self).items@.last().0,
        ensures
            m == old(self).items@[j as int],
            final(self).wf_by_size(),
            final(self).limit == old(self).limit,
            final(self).items@.to_multiset() == old(self).items@.to_multiset().remove(m).insert(x),
            final(self).offered() == old(self).offered().insert(x),
    {
        let ghost old_self = *self;
        let ghost old_items = self.items@;
        let least = self.items[self.items.len() - 1].0;
        proof {
            assert forall|k: int| 0 <= k < old_items.len() implies least <= (
            #[trigger] old_items[k]).0 by {
                if k < old_items.len() - 1 {
                    assert(rank_le(old_items[old_items.len() - 1], old_items[k]));
                }
            }
        }
        let m = self.remove_at(j);
        proof {
            let s = self.items@;
            assert forall|k: int| 0 <= k < s.len() implies least <= (#[trigger] s[k]).0 by {
                if k < j {
                    assert(s[k] == old_items[k]);
                } else {
                    assert(s[k] == old_items[k + 1]);
                }
            }
            assert forall|y: (u64, u64)| old_self.dropped@.count(y) > 0 implies forall|k: int|
                0 <= k < s.len() ==> y.0 <= (#[trigger] s[k]).0 by {
                assert(y.0 <= old_items[old_items.len() - 1].0);
            }
        }
        self.insert_sorted(x);
        self.dropped = Ghost(self.dropped@.insert(m));
        proof {
            assert(old_items.to_multiset().count(m) > 0);
            assert(self.offered() =~= old_self.offered().insert(x));
            assert forall|y: (u64, u64)| self.dropped@.count(y) > 0 implies forall|k: int|
                0 <= k < self.items@.len() ==> y.0 <= (#[trigger] self.items@[k]).0 by {
                if y != m {
                    assert(old_self.dropped@.count(y) > 0);
                    assert(y.0 <= old_items[old_items.len() - 1].0);
                }
            }
        }
        m
    }

    /// Offers a file of `size` bytes with key `key`, keeping the largest files
    /// by size: while fewer than `limit` are kept the file is added; otherwise,
    /// when it is strictly larger than the smallest kept file, it takes the
    /// place of the victim named by `drop_key` (a key among
    /// `offer_candidates(size)`), and it is rejected when it is not.
    pub fn offer(&mut self, size: u64, key: u64, drop_key: u64) -> (change: TopChange)
        requires
            old(self).wf_by_size(),
        ensures
            final(self).wf_by_size(),
            final(self).limit() == old(self).limit(),
            final(self).offered() == old(self).offered().insert((size, key)),
            is_top_by_size(final(self).offered(), final(self).items(), final(self).limit()),
            offer_step(*old(self), *final(self), size, key, drop_key, change),
    {
        let x = (size, key);
        let ghost old_self = *self;
        if self.items.len() < self.limit {
            self.insert_sorted(x);
            proof {
                assert(self.offered() =~= old_self.offered().insert(x));
                self.lemma_top_by_size();
            }
            TopChange::Inserted
        } else if self.limit > 0 && size > self.items[self.items.len() - 1].0 {
            let j = self.victim_index(drop_key);
            let m = self.replace_at(j, x);
            proof {
                self.lemma_top_by_size();
            }
            TopChange::Replaced(m.1)
        } else {
            self.reject(x);
            TopChange::Rejected
        }
    }

    /// Pushes a file of `size` bytes with key `key`, then, when more than
    /// `limit` files are held, drops one of the smallest: a larger file than
    /// the smallest kept one takes the place of the victim named by
    /// `drop_key` (a key among `push_candidates(size)`); a file as large as
    /// the smallest kept one takes the place of the kept file of that size
    /// with key `drop_key` when there is one and `drop_key` is not `key`, and
    /// is dropped otherwise.
    pub fn push_pop(&mut self, size: u64, key: u64, drop_key: u64) -> (change: TopChange)
        requires
            old(self).wf_by_size(),
        ensures
            final(self).wf_by_size(),
            final(self).limit() == old(self).limit(),
            final(self).offered() == old(self).offered().insert((size, key)),
            is_top_by_size(final(self).offered(), final(self).items(), final(self).limit()),
            push_step(*old(self), *final(self), size, key, drop_key, change),
    {
        let x = (size, key);
        let ghost old_self = *self;
        if self.items.len() < self.limit {
            self.insert_sorted(x);
            proof {
                assert(self.offered() =~= old_self.offered().insert(x));
                self.lemma_top_by_size();
            }
            return TopChange::Inserted;
        }
        if self.limit > 0 {
            let least = self.items[self.items.len() - 1].0;
            if size >= least {
                let j = self.victim_index(drop_key);
                let named = self.items[j].0 == least && self.items[j].1 == drop_key;
                proof {
                    assert(named == self.items@.contains((least, drop_key)));
                }
                if size > least || (drop_key != key && named) {
                    let m = self.replace_at(j, x);
                    proof {
                        self.lemma_top_by_size();
                    }
                    return TopChange::Replaced(m.1);
                }
            }
        }
        self.reject(x);
        TopChange::Rejected
    }

    /// Records `x` as offered and not kept, in a selection by size whose
    /// places are all taken and whose kept files are no smaller than `x`.
    fn reject(&mut self, x: (u64, u64))
        requires
            old(self).wf_by_size(),
            old(self).items@.len() >= old(self).limit,
            old(self).limit > 0 ==> x.0 <= old(self).items@.last().0,
        ensures
            final(self).wf_by_size(),
            final(self).limit == old(self).limit,
            final(self).items@ == old(self).items@,
            final(self).offered() == old(self).offered().insert(x),
            is_top_by_size(final(self).offered(), final(self).items(), final(self).limit()),
    {
        let ghost old_self = *self;
        self.dropped = Ghost(self.dropped@.insert(x));
        proof {
            assert(self.offered() =~= old_self.offered().insert(x));
            if self.limit > 0 {
                assert forall|j: int| 0 <= j < self.items@.len() implies x.0 <= (
                #[trigger] self.items@[j]).0 by {
                    if j < self.items@.len() - 1 {
                        assert(rank_le(self.items@[self.items@.len() - 1], self.items@[j]));
                    }
                }
            }
            self.lemma_top_by_size();
        }
    }

    /// Adds a file, then lets the lowest-ranked file go when more than
    /// `limit` are kept.
    #[verifier::spinoff_prover]
    #[verifier::rlimit(40)]
    pub fn push_bounded(&mut self, item: (u64, u64)) -> (evicted: Option<(u64, u64)>)
        requires
            old(self).wf_by_rank(),
        ensures
            old(self).items().len() < old(self).limit() ==> evicted is None
                && final(self).items().to_multiset() == old(self).items().to_multiset().insert(
                item,
            ),
            old(self).items().len() >= old(self).limit() ==> evicted is Some
                && final(self).items().to_multiset() == old(self).items().to_multiset().insert(
                item,
            ).remove(evicted->0),
            final(self).wf_by_rank(),
            final(self).limit() == old(self).limit(),
            final(self).offered() == old(self).offered().insert(item),
            is_top_by_rank(final(self).offered(), final(self).items(), final(self).limit()),
    {
        let ghost old_self = *self;
        let pos = self.insert_sorted(item);
        if self.items.len() > self.limit {
            let ghost mid = self.items@;
            let m = self.pop_lowest();
            self.dropped = Ghost(self.dropped@.insert(m));
            proof {
                assert(mid.to_multiset().count(m) > 0);
                assert(self.offered() =~= old_self.offered().insert(item));
                assert forall|y: (u64, u64)| self.dropped@.count(y) > 0 implies forall|j: int|
                    0 <= j < self.items@.len() ==> rank_le(y, #[trigger] self.items@[j]) by {
                    if y == m {
                        assert forall|j: int| 0 <= j < self.items@.len() implies rank_le(
                            y,
                            #[trigger] self.items@[j],
                        ) by {
                            assert(self.items@[j] == mid[j]);
                        }
                    } else {
                        assert(old_self.dropped@.count(y) > 0);
                        let n = old_self.items@.len();
                        assert(n > 0 ==> rank_le(y, old_self.items@[n - 1]));
                        assert forall|j: int| 0 <= j < self.items@.len() implies rank_le(
                            y,
                            #[trigger] self.items@[j],
                        ) by {
                            assert(self.items@[j] == mid[j]);
                            if pos == n {
                                assert(mid[j] == old_self.items@[j]);
                            } else if j < pos {
                                assert(mid[j] == old_self.items@[j]);
                            } else if j == pos {
                                assert(m == old_self.items@[n - 1]);
                                assert(rank_le(m, mid[j]));
                            } else {
                                assert(mid[j] == old_self.items@[j - 1]);
                            }
                        }
                    }
                }
                self.lemma_top_by_rank();
            }
            Some(m)
        } else {
            proof {
                assert(self.offered() =~= old_self.offered().insert(item));
                assert(old_self.dropped@.len() == 0);
                self.lemma_top_by_rank();
            }
            None
        }
    }
}

/// `a` ranks at most as high as `b`.
pub fn rank_le_exec(a: (u64, u64), b: (u64, u64)) -> (r: bool)
    ensures
        r == rank_le(a, b),
{
    a.0 < b.0 || (a.0 == b.0 && a.1 <= b.1)
}

/// All files of a list of selections, one selection after the other.
pub open spec fn concat_heaps(hs: Seq<Vec<(u64, u64)>>) -> Seq<(u64, u64)>
    decreases hs.len(),
{
    if hs.len() == 0 {
        Seq::empty()
    } else {
        concat_heaps(hs.drop_last()) + hs.last()@
    }
}

/// Merges the per-thread selections into the `n` highest-ranked files of
/// them all, largest first.
pub fn merge_top_files(heaps: &Vec<Vec<(u64, u64)>>, n: usize) -> (merged: Vec<(u64, u64)>)
    ensures
        is_top_by_rank(concat_heaps(heaps@).to_multiset(), merged@, n as nat),
{
    let mut top = TopFiles::new(n);
    let mut i: usize = 0;
    while i < heaps.len()
        invariant
            i <= heaps@.len(),
            top.wf_by_rank(),
            top.limit() == n,
            top.offered() == concat_heaps(heaps@.take(i as int)).to_multiset(),
        decreases heaps@.len() - i,
    {
        let heap = &heaps[i];
        let mut j: usize = 0;
        while j < heap.len()
            invariant
                i < heaps@.len(),
                heap == heaps@[i as int],
                j <= heap@.len(),
                top.wf_by_rank(),
                top.limit() == n,
                top.offered() == (concat_heaps(heaps@.take(i as int)) + heap@.take(
                    j as int,
                )).to_multiset(),
            decreases heap@.len() - j,
        {
            let _ = top.push_bounded(heap[j]);
            proof {
                let prev = concat_heaps(heaps@.take(i as int)) + heap@.take(j as int);
                assert(concat_heaps(heaps@.take(i as int)) + heap@.take(j + 1) =~= prev.push(
                    heap@[j as int],
                ));
            }
            j = j + 1;
        }
        proof {
            assert(heaps@.take(i + 1).drop_last() =~= heaps@.take(i as int));
            assert(heap@.take(j as int) =~= heap@);
        }
        i = i + 1;
    }
    proof {
        assert(heaps@.take(i as int) =~= heaps@);
        top.lemma_top_by_rank();
    }
    top.to_vec()
}

/// Every file seen by a list of traversal threads.
pub open spec fn union_all(seen: Seq<Multiset<(u64, u64)>>) -> Multiset<(u64, u64)>
    decreases seen.len(),
{
    if seen.len() == 0 {
        Multiset::empty()
    } else {
        union_all(seen.drop_last()).add(seen.last())
    }
}

proof fn lemma_sub_equal(a: Multiset<(u64, u64)>, b: Multiset<(u64, u64)>)
    requires
        a.subset_of(b),
        b.len() <= a.len(),
    ensures
        a == b,
{
    assert(b.sub(a).len() == 0);
    assert(b.sub(a) =~= Multiset::empty());
    assert forall|v: (u64, u64)| a.count(v) == b.count(v) by {
        assert(b.sub(a).count(v) == 0);
    }
    assert(a =~= b);
}

proof fn lemma_union_facts(seen: Seq<Multiset<(u64, u64)>>, heaps: Seq<Vec<(u64, u64)>>, n: nat)
    requires
        seen.len() == heaps.len(),
        forall|t: int| 0 <= t < seen.len() ==> is_top_by_size(#[trigger] seen[t], heaps[t]@, n),
    ensures
        concat_heaps(heaps).to_multiset().subset_of(union_all(seen)),
        forall|t: int|
            0 <= t < heaps.len() ==> (#[trigger] heaps[t])@.to_multiset().subset_of(
                concat_heaps(heaps).to_multiset(),
            ),
        forall|x: (u64, u64)|
            union_all(seen).count(x) > concat_heaps(heaps).to_multiset().count(x) ==> exists|t: int|
                0 <= t < seen.len() && (#[trigger] seen[t]).count(x) > heaps[t]@.to_multiset().count(
                    x,
                ),
        (exists|t: int| 0 <= t < seen.len() && (#[trigger] seen[t]).len() >= n) ==> concat_heaps(
            heaps,
        ).to_multiset().len() >= n,
        (forall|t: int| 0 <= t < seen.len() ==> (#[trigger] seen[t]).len() < n) ==> concat_heaps(
            heaps,
        ).to_multiset() == union_all(seen),
    decreases seen.len(),
{
    if seen.len() > 0 {
        let sp = seen.drop_last();
        let hp = heaps.drop_last();
        let last = heaps.last();
        let s_last = seen.last();
        assert forall|t: int| 0 <= t < sp.len() implies is_top_by_size(#[trigger] sp[t], hp[t]@, n) by {
            assert(sp[t] == seen[t]);
            assert(hp[t] == heaps[t]);
        }
        lemma_union_facts(sp, hp, n);
        let cp = concat_heaps(hp).to_multiset();
        let c = concat_heaps(heaps).to_multiset();
        vstd::seq_lib::lemma_multiset_commutative(concat_heaps(hp), last@);
        assert(c == cp.add(last@.to_multiset()));
        let up = union_all(sp);
        let u = union_all(seen);
        assert(u == up.add(s_last));
        assert(is_top_by_size(s_last, last@, n)) by {
            assert(seen[seen.len() - 1] == s_last);
        }
        assert(c.subset_of(u));
        assert forall|t: int| 0 <= t < heaps.len() implies (#[trigger] heaps[t])@.to_multiset().subset_of(c) by {
            if t < heaps.len() - 1 {
                assert(heaps[t] == hp[t]);
            }
        }
        assert forall|x: (u64, u64)| u.count(x) > c.count(x) implies exists|t: int|
            0 <= t < seen.len() && (#[trigger] seen[t]).count(x) > heaps[t]@.to_multiset().count(
                x,
            ) by {
            if up.count(x) > cp.count(x) {
                let t = choose|t: int|
                    0 <= t < sp.len() && (#[trigger] sp[t]).count(x) > hp[t]@.to_multiset().count(x);
                assert(sp[t] == seen[t]);
                assert(hp[t] == heaps[t]);
            } else {
                assert(seen[seen.len() - 1].count(x) > heaps[heaps.len() - 1]@.to_multiset().count(x));
            }
        }
        if exists|t: int| 0 <= t < seen.len() && (#[trigger] seen[t]).len() >= n {
            let t = choose|t: int| 0 <= t < seen.len() && (#[trigger] seen[t]).len() >= n;
            if t < seen.len() - 1 {
                assert(sp[t] == seen[t]);
                assert(cp.len() >= n);
            } else {
                assert(last@.to_multiset().len() == last@.len());
            }
        }
        if forall|t: int| 0 <= t < seen.len() ==> (#[trigger] seen[t]).len() < n {
            assert forall|t: int| 0 <= t < sp.len() implies (#[trigger] sp[t]).len() < n by {
                assert(sp[t] == seen[t]);
            }
            assert(seen[seen.len() - 1].len() < n);
            assert(last@.to_multiset().len() == last@.len());
            lemma_sub_equal(last@.to_multiset(), s_last);
        }
    } else {
        assert(concat_heaps(heaps).to_multiset() =~= Multiset::empty());
    }
}

/// Selecting the largest files by size in every traversal thread, then the
/// highest-ranked among the survivors, gives the largest files of the whole
/// scan: `n` of them (all, when fewer were seen), largest first, none left
/// out larger than one kept.
pub proof fn lemma_scan_top_is_largest(
    seen: Seq<Multiset<(u64, u64)>>,
    heaps: Seq<Vec<(u64, u64)>>,
    n: nat,
    result: Seq<(u64, u64)>,
)
    requires
        seen.len() == heaps.len(),
        forall|t: int| 0 <= t < seen.len() ==> is_top_by_size(#[trigger] seen[t], heaps[t]@, n),
        is_top_by_rank(concat_heaps(heaps).to_multiset(), result, n),
    ensures
        is_top_by_size(union_all(seen), result, n),
{
    lemma_union_facts(seen, heaps, n);
    let c = concat_heaps(heaps).to_multiset();
    let u = union_all(seen);
    let r = result.to_multiset();
    result.to_multiset_ensures();
    assert(r.subset_of(u));
    assert(u.sub(c).len() == u.len() - c.len());
    assert(c.len() <= u.len());
    if exists|t: int| 0 <= t < seen.len() && (#[trigger] seen[t]).len() >= n {
        assert(result.len() == n);
    } else {
        assert(c == u);
    }
    assert forall|x: (u64, u64)| u.count(x) > r.count(x) implies forall|j: int|
        0 <= j < result.len() ==> x.0 <= (#[trigger] result[j]).0 by {
        if c.count(x) > r.count(x) {
            assert forall|j: int| 0 <= j < result.len() implies x.0 <= (#[trigger] result[j]).0 by {
                assert(rank_le(x, result[j]));
            }
        } else {
            let t = choose|t: int|
                0 <= t < seen.len() && (#[trigger] seen[t]).count(x) > heaps[t]@.to_multiset().count(x);
            let h = heaps[t]@;
            assert(is_top_by_size(seen[t], h, n));
            h.to_multiset_ensures();
            if seen[t].len() <= h.to_multiset().len() {
                lemma_sub_equal(h.to_multiset(), seen[t]);
                assert(false);
            }
            assert(h.len() == n);
            assert forall|j: int| 0 <= j < result.len() implies x.0 <= (#[trigger] result[j]).0 by {
                if exists|y: (u64, u64)| h.to_multiset().count(y) > 0 && c.count(y) > r.count(y) {
                    let y = choose|y: (u64, u64)|
                        h.to_multiset().count(y) > 0 && c.count(y) > r.count(y);
                    assert(h.contains(y));
                    let k = choose|k: int| 0 <= k < h.len() && h[k] == y;
                    assert(x.0 <= h[k].0);
                    assert(rank_le(y, result[j]));
                } else {
                    assert(h.to_multiset().subset_of(r)) by {
                        assert forall|y: (u64, u64)| h.to_multiset().count(y) <= r.count(y) by {
                            if h.to_multiset().count(y) > 0 {
                                assert(h.to_multiset().count(y) <= c.count(y));
                            }
                        }
                    }
                    lemma_sub_equal(h.to_multiset(), r);
                    assert(r.count(result[j]) > 0);
                    assert(h.contains(result[j]));
                    let k = choose|k: int| 0 <= k < h.len() && h[k] == result[j];
                    assert(x.0 <= h[k].0);
                }
            }
        }
    }
}

/// A selection by rank is also a selection by size.
pub proof fn lemma_rank_selection_is_size_selection(all: Multiset<(u64, u64)>, kept: Seq<(u64, u64)>, n: nat)
    requires
        is_top_by_rank(all, kept, n),
    ensures
        is_top_by_size(all, kept, n),
{
    assert forall|x: (u64, u64)| all.count(x) > kept.to_multiset().count(x) implies forall|j: int|
        0 <= j < kept.len() ==> x.0 <= (#[trigger] kept[j]).0 by {
        assert forall|j: int| 0 <= j < kept.len() implies x.0 <= (#[trigger] kept[j]).0 by {
            assert(rank_le(x, kept[j]));
        }
    }
}

/// Keeping the highest-ranked files in every traversal thread, then the
/// highest-ranked among the survivors, keeps the highest-ranked files of the
/// whole scan, whatever the split of the files among the threads.
pub proof fn lemma_scan_top_by_rank(
    seen: Seq<Multiset<(u64, u64)>>,
    heaps: Seq<Vec<(u64, u64)>>,
    n: nat,
    result: Seq<(u64, u64)>,
)
    requires
        seen.len() == heaps.len(),
        forall|t: int| 0 <= t < seen.len() ==> is_top_by_rank(#[trigger] seen[t], heaps[t]@, n),
        is_top_by_rank(concat_heaps(heaps).to_multiset(), result, n),
    ensures
        is_top_by_rank(union_all(seen), result, n),
{
    assert forall|t: int| 0 <= t < seen.len() implies is_top_by_size(#[trigger] seen[t], heaps[t]@, n) by {
        lemma_rank_selection_is_size_selection(seen[t], heaps[t]@, n);
    }
    lemma_scan_top_is_largest(seen, heaps, n, result);
    lemma_union_facts(seen, heaps, n);
    let c = concat_heaps(heaps).to_multiset();
    let r = result.to_multiset();
    result.to_multiset_ensures();
    assert forall|x: (u64, u64)| union_all(seen).count(x) > r.count(x) implies forall|j: int|
        0 <= j < result.len() ==> rank_le(x, #[trigger] result[j]) by {
        if c.count(x) <= r.count(x) {
            let t = choose|t: int|
                0 <= t < seen.len() && (#[trigger] seen[t]).count(x) > heaps[t]@.to_multiset().count(x);
            let h = heaps[t]@;
            assert(is_top_by_rank(seen[t], h, n));
            h.to_multiset_ensures();
            if seen[t].len() <= h.to_multiset().len() {
                lemma_sub_equal(h.to_multiset(), seen[t]);
                assert(false);
            }
            assert(h.len() == n);
            assert forall|j: int| 0 <= j < result.len() implies rank_le(x, #[trigger] result[j]) by {
                if exists|y: (u64, u64)| h.to_multiset().count(y) > 0 && c.count(y) > r.count(y) {
                    let y = choose|y: (u64, u64)|
                        h.to_multiset().count(y) > 0 && c.count(y) > r.count(y);
                    assert(h.contains(y));
                    let k = choose|k: int| 0 <= k < h.len() && h[k] == y;
                    assert(rank_le(x, h[k]));
                    assert(rank_le(y, result[j]));
                } else {
                    assert(h.to_multiset().subset_of(r)) by {
                        assert forall|y: (u64, u64)| h.to_multiset().count(y) <= r.count(y) by {
                            if h.to_multiset().count(y) > 0 {
                                assert(h.to_multiset().count(y) <= c.count(y));
                            }
                        }
                    }
                    lemma_sub_equal(h.to_multiset(), r);
                    assert(r.count(result[j]) > 0);
                    assert(h.contains(result[j]));
                    let k = choose|k: int| 0 <= k < h.len() && h[k] == result[j];
                    assert(rank_le(x, h[k]));
                }
            }
        } else {
            assert forall|j: int| 0 <= j < result.len() implies rank_le(x, #[trigger] result[j]) by {
                assert(rank_le(x, result[j]));
            }
        }
    }
}

/// The sizes of a list of files, in order.
pub open spec fn sizes(s: Seq<(u64, u64)>) -> Seq<u64> {
    s.map_values(|x: (u64, u64)| x.0)
}

/// Of two selections by size from the same files, the `j`-th kept file of
/// the first is no larger than the `j`-th of the second.
proof fn lemma_size_not_above_at(
    all: Multiset<(u64, u64)>,
    a: Seq<(u64, u64)>,
    b: Seq<(u64, u64)>,
    n: nat,
    j: int,
)
    requires
        is_top_by_size(all, a, n),
        is_top_by_size(all, b, n),
        0 <= j < a.len(),
    ensures
        a[j].0 <= b[j].0,
{
    if a[j].0 > b[j].0 {
        let v = b[j].0;
        let at = a.take(j + 1);
        let bt = b.take(j);
        let ma = at.to_multiset();
        let mb = bt.to_multiset();
        assert(a =~= at + a.skip(j + 1));
        assert(b =~= bt + b.skip(j));
        vstd::seq_lib::lemma_multiset_commutative(at, a.skip(j + 1));
        vstd::seq_lib::lemma_multiset_commutative(bt, b.skip(j));
        at.to_multiset_ensures();
        bt.to_multiset_ensures();
        b.skip(j).to_multiset_ensures();
        assert forall|x: (u64, u64)| ma.count(x) <= mb.count(x) by {
            if ma.count(x) > 0 {
                assert(at.contains(x));
                let i = choose|i: int| 0 <= i < at.len() && at[i] == x;
                assert(a[i] == x);
                if i < j {
                    assert(rank_le(a[j], a[i]));
                }
                assert(x.0 > v);
                if all.count(x) > b.to_multiset().count(x) {
                    assert(x.0 <= b[j].0);
                }
                assert(!b.skip(j).contains(x)) by {
                    if b.skip(j).contains(x) {
                        let k = choose|k: int| 0 <= k < b.skip(j).len() && b.skip(j)[k] == x;
                        assert(b.skip(j)[k] == b[j + k]);
                        if k > 0 {
                            assert(rank_le(b[j + k], b[j]));
                        }
                    }
                }
                assert(b.skip(j).to_multiset().count(x) == 0);
            }
        }
        assert(ma.subset_of(mb));
        assert(mb.sub(ma).len() == mb.len() - ma.len());
        assert(ma.len() == j + 1);
        assert(mb.len() == j);
    }
}

/// Two selections by size of `n` files from the same files keep files of
/// the same sizes, in the same order: only which of equally large files are
/// kept may differ.
pub proof fn lemma_top_by_size_sizes_unique(
    all: Multiset<(u64, u64)>,
    a: Seq<(u64, u64)>,
    b: Seq<(u64, u64)>,
    n: nat,
)
    requires
        is_top_by_size(all, a, n),
        is_top_by_size(all, b, n),
    ensures
        sizes(a) == sizes(b),
{
    assert forall|j: int| 0 <= j < a.len() implies a[j].0 == b[j].0 by {
        lemma_size_not_above_at(all, a, b, n, j);
        lemma_size_not_above_at(all, b, a, n, j);
    }
    assert(sizes(a) =~= sizes(b));
}

/// However the files of a scan are spread over traversal threads (two runs
/// that see the same files, each thread keeping its largest files by size and
/// the survivors then merged by rank), the merged lists hold files of the
/// same sizes, in the same order.
pub proof fn lemma_scan_top_sizes_split_free(
    seen1: Seq<Multiset<(u64, u64)>>,
    heaps1: Seq<Vec<(u64, u64)>>,
    result1: Seq<(u64, u64)>,
    seen2: Seq<Multiset<(u64, u64)>>,
    heaps2: Seq<Vec<(u64, u64)>>,
    result2: Seq<(u64, u64)>,
    n: nat,
)
    requires
        seen1.len() == heaps1.len(),
        seen2.len() == heaps2.len(),
        forall|t: int| 0 <= t < seen1.len() ==> is_top_by_size(#[trigger] seen1[t], heaps1[t]@, n),
        forall|t: int| 0 <= t < seen2.len() ==> is_top_by_size(#[trigger] seen2[t], heaps2[t]@, n),
        is_top_by_rank(concat_heaps(heaps1).to_multiset(), result1, n),
        is_top_by_rank(concat_heaps(heaps2).to_multiset(), result2, n),
        union_all(seen1) == union_all(seen2),
    ensures
        sizes(result1) == sizes(result2),
{
    lemma_scan_top_is_largest(seen1, heaps1, n, result1);
    lemma_scan_top_is_largest(seen2, heaps2, n, result2);
    lemma_top_by_size_sizes_unique(union_all(seen1), result1, result2, n);
}

} // verus!
