//! Adaptive models over symbol frequencies that start uniform and grow with
//! each symbol seen.
use lowbit::{
    lemma_lowbit_bounds, lemma_lowbit_gap, lemma_lowbit_half, lemma_lowbit_next, lowbit, lowest_bit,
};
use std::ops::Range;
use vstd::prelude::*;

pub mod context_switching;
pub mod lowbit;
pub mod saturation;
pub mod simple;

verus! {

/// Cumulative counts `c` are consistent: `c[0] == 0`, and they rise strictly,
/// so that every bucket has a positive frequency.
pub open spec fn counts_wf(c: Seq<u64>) -> bool {
    &&& c.len() >= 2
    &&& c[0] == 0
    &&& forall|i: int, j: int| 0 <= i < j < c.len() ==> c[i] < c[j]
}

/// The number of data symbols: every bucket but the EOF bucket.
pub open spec fn n_symbols(c: Seq<u64>) -> nat {
    (c.len() - 2) as nat
}

/// The sum of all frequencies.
pub open spec fn total_of(c: Seq<u64>) -> nat {
    c[c.len() - 1] as nat
}

/// The bucket of a symbol: 0 for EOF, `s + 1` for the data symbol `s`.
pub open spec fn bucket(symbol: Option<usize>) -> nat {
    match symbol {
        None => 0,
        Some(s) => s as nat + 1,
    }
}

/// Whether `symbol` is EOF or one of the data symbols.
pub open spec fn known(c: Seq<u64>, symbol: Option<usize>) -> bool {
    bucket(symbol) <= n_symbols(c)
}

/// The interval `[c[k], c[k + 1int])` of bucket `k`.
pub open spec fn bucket_range(c: Seq<u64>, k: nat) -> (nat, nat) {
    (c[k as int] as nat, c[k + 1int] as nat)
}

/// The bucket whose interval holds `value`.
pub open spec fn bucket_of(c: Seq<u64>, value: nat) -> nat {
    choose|k: nat| k + 1 < c.len() && #[trigger] c[k as int] <= value < c[k + 1int]
}

/// The symbol (or EOF) whose interval holds `value`.
pub open spec fn symbol_of(c: Seq<u64>, value: nat) -> Option<usize> {
    if bucket_of(c, value) == 0 {
        None
    } else {
        Some((bucket_of(c, value) - 1) as usize)
    }
}

/// The counts after `delta` was added to the frequency of bucket `k`.
pub open spec fn added(c: Seq<u64>, k: nat, delta: nat) -> Seq<u64> {
    Seq::new(c.len(), |j: int| if j > k { (c[j] + delta) as u64 } else { c[j] })
}

/// A bucket whose interval holds `value` is the one that `bucket_of` names.
pub proof fn lemma_bucket_of(c: Seq<u64>, value: nat, k: nat)
    requires
        counts_wf(c),
        k + 1 < c.len(),
        c[k as int] <= value < c[k + 1int],
    ensures
        bucket_of(c, value) == k,
{
    let b = bucket_of(c, value);
    assert(b + 1 < c.len() && c[b as int] <= value < c[b + 1int]);
    if b < k {
        assert(c[b + 1int] <= c[k as int]) by {
            if b + 1 < k {
                assert(c[b + 1int] < c[k as int]);
            }
        }
    } else if b > k {
        assert(c[k + 1int] <= c[b as int]) by {
            if k + 1 < b {
                assert(c[k + 1int] < c[b as int]);
            }
        }
    }
}

/// The sum of the first `k` frequencies of `f`.
pub open spec fn prefix(f: Seq<u64>, k: int) -> int
    decreases k,
{
    if k <= 0 {
        0
    } else {
        prefix(f, k - 1) + f[k - 1]
    }
}

/// The largest number of buckets that [`Weights`] holds.
pub const MAX_BUCKETS: u64 = 0x3fff_ffff_ffff_ffff;

/// The Fenwick tree `t` stands for the frequencies `f`: entry `i` (from 1)
/// holds the sum of the `lowbit(i)` frequencies that end at bucket `i - 1`.
/// Every frequency is positive and their total fits in a `u64`.
pub open spec fn tree_of(f: Seq<u64>, t: Seq<u64>) -> bool {
    &&& 1 <= f.len() <= MAX_BUCKETS
    &&& t.len() == f.len() + 1
    &&& forall|k: int| 0 <= k < f.len() ==> #[trigger] f[k] >= 1
    &&& prefix(f, f.len() as int) <= u64::MAX
    &&& forall|i: int|
        1 <= i <= f.len() ==> #[trigger] t[i] == prefix(f, i) - prefix(f, i - lowbit(i as u64))
}

/// With positive frequencies, the prefix sums rise strictly.
pub proof fn lemma_prefix_rises(f: Seq<u64>, i: int, j: int)
    requires
        forall|k: int| 0 <= k < f.len() ==> #[trigger] f[k] >= 1,
        0 <= i < j <= f.len(),
    ensures
        0 <= prefix(f, i) < prefix(f, j),
    decreases j,
{
    if i < j - 1 {
        lemma_prefix_rises(f, i, j - 1);
    } else {
        lemma_prefix_nonneg(f, i);
    }
}

/// Prefix sums are not negative.
pub proof fn lemma_prefix_nonneg(f: Seq<u64>, k: int)
    requires
        0 <= k <= f.len(),
    ensures
        prefix(f, k) >= 0,
    decreases k,
{
    if k > 0 {
        lemma_prefix_nonneg(f, k - 1);
    }
}

/// Adding `delta` to the frequency of bucket `b` adds it to every prefix
/// that holds the bucket.
pub proof fn lemma_prefix_added(f: Seq<u64>, b: int, delta: int, k: int)
    requires
        0 <= b < f.len(),
        0 <= k <= f.len(),
        f[b] + delta <= u64::MAX,
        delta >= 0,
    ensures
        prefix(f.update(b, (f[b] + delta) as u64), k) == prefix(f, k) + if k > b {
            delta
        } else {
            0
        },
    decreases k,
{
    if k > 0 {
        lemma_prefix_added(f, b, delta, k - 1);
    }
}

/// Where every frequency is one, the prefix of length `k` is `k`.
pub proof fn lemma_prefix_ones(f: Seq<u64>, k: int)
    requires
        0 <= k <= f.len(),
        forall|i: int| 0 <= i < f.len() ==> #[trigger] f[i] == 1,
    ensures
        prefix(f, k) == k,
    decreases k,
{
    if k > 0 {
        lemma_prefix_ones(f, k - 1);
    }
}

/// The frequencies of EOF (bucket 0) and of each data symbol (bucket `s + 1`),
/// in a Fenwick tree: prefix sums, lookups by value and updates each take
/// `O(log n)` steps.
pub struct Weights {
    freq: Vec<u64>,
    tree: Vec<u64>,
}

impl Weights {
    /// The tree stands for the frequencies.
    #[verifier::type_invariant]
    spec fn inv(self) -> bool {
        tree_of(self.freq@, self.tree@)
    }

    /// The cumulative counts: entry `k` is the sum of the frequencies of the
    /// buckets below `k`.
    pub closed spec fn counts(&self) -> Seq<u64> {
        Seq::new((self.freq@.len() + 1) as nat, |k: int| prefix(self.freq@, k) as u64)
    }

    /// The cumulative counts of a tree are consistent.
    proof fn lemma_counts(&self)
        requires
            tree_of(self.freq@, self.tree@),
        ensures
            counts_wf(self.counts()),
            total_of(self.counts()) == prefix(self.freq@, self.freq@.len() as int),
            forall|k: int|
                0 <= k <= self.freq@.len() ==> #[trigger] self.counts()[k] == prefix(self.freq@, k),
    {
        let f = self.freq@;
        let c = self.counts();
        assert forall|k: int| 0 <= k <= f.len() implies #[trigger] c[k] == prefix(f, k) by {
            lemma_prefix_nonneg(f, k);
            if k < f.len() {
                lemma_prefix_rises(f, k, f.len() as int);
            }
        }
        assert forall|i: int, j: int| 0 <= i < j < c.len() implies c[i] < c[j] by {
            lemma_prefix_rises(f, i, j);
        }
    }

    /// Every bucket, EOF included, with a frequency of one.
    pub fn new(n_symbols: usize) -> (r: Self)
        requires
            n_symbols < MAX_BUCKETS,
            n_symbols + 2 <= usize::MAX,
        ensures
            counts_wf(r.counts()),
            r.counts() == Seq::new((n_symbols + 2) as nat, |i: int| i as u64),
            total_of(r.counts()) == n_symbols + 1,
    {
        let n: usize = n_symbols + 1;
        let mut freq: Vec<u64> = Vec::new();
        let mut i: usize = 0;
        while i < n
            invariant
                i <= n == n_symbols + 1,
                freq@.len() == i,
                forall|k: int| 0 <= k < i ==> #[trigger] freq@[k] == 1,
            decreases n - i,
        {
            freq.push(1);
            i = i + 1;
        }
        let mut tree: Vec<u64> = Vec::new();
        tree.push(0);
        let mut j: u64 = 1;
        while j <= n as u64
            invariant
                1 <= j <= n + 1,
                n == freq@.len(),
                n <= MAX_BUCKETS,
                tree@.len() == j,
                forall|k: int| 0 <= k < n ==> #[trigger] freq@[k] == 1,
                forall|k: int| 1 <= k < j ==> #[trigger] tree@[k] == prefix(freq@, k) - prefix(freq@, k - lowbit(k as u64)),
            decreases n - j + 1,
        {
            let low = lowest_bit(j);
            proof {
                lemma_lowbit_bounds(j);
                lemma_prefix_ones(freq@, j as int);
                lemma_prefix_ones(freq@, j - lowbit(j));
            }
            tree.push(low);
            j = j + 1;
        }
        proof {
            lemma_prefix_ones(freq@, n as int);
        }
        let r = Weights { freq, tree };
        proof {
            r.lemma_counts();
            assert(r.counts() =~= Seq::new((n_symbols + 2) as nat, |i: int| i as u64)) by {
                assert forall|k: int| 0 <= k <= n implies r.counts()[k] == k as u64 by {
                    lemma_prefix_ones(r.freq@, k);
                }
            }
        }
        r
    }

    /// The sum of the frequencies of the buckets below `k`.
    fn prefix_sum(&self, k: u64) -> (r: u64)
        requires
            k <= self.freq@.len(),
        ensures
            r == prefix(self.freq@, k as int),
    {
        proof {
            use_type_invariant(self);
        }
        let size: usize = self.tree.len();
        let mut i: u64 = k;
        let mut sum: u64 = 0;
        proof {
            lemma_prefix_nonneg(self.freq@, k as int);
            if (k as int) < self.freq@.len() {
                lemma_prefix_rises(self.freq@, k as int, self.freq@.len() as int);
            }
        }
        while i > 0
            invariant
                tree_of(self.freq@, self.tree@),
                i <= k <= self.freq@.len(),
                size == self.tree@.len(),
                sum + prefix(self.freq@, i as int) == prefix(self.freq@, k as int),
                prefix(self.freq@, k as int) <= u64::MAX,
            decreases i,
        {
            proof {
                lemma_lowbit_bounds(i);
                lemma_prefix_nonneg(self.freq@, i - lowbit(i));
                assert(self.tree@[i as int] == prefix(self.freq@, i as int) - prefix(
                    self.freq@,
                    i - lowbit(i),
                ));
            }
            sum = sum + self.tree[i as usize];
            i = i - lowest_bit(i);
        }
        sum
    }

    /// The number of data symbols.
    pub fn len(&self) -> (r: usize)
        ensures
            r == n_symbols(self.counts()),
    {
        proof {
            use_type_invariant(self);
        }
        self.freq.len() - 1
    }

    /// The sum of all frequencies.
    pub fn total(&self) -> (r: u64)
        ensures
            r == total_of(self.counts()),
            counts_wf(self.counts()),
    {
        proof {
            use_type_invariant(self);
            self.lemma_counts();
        }
        self.prefix_sum(self.freq.len() as u64)
    }

    /// The interval of `symbol` (EOF for `None`).
    pub fn range(&self, symbol: Option<usize>) -> (r: Range<u64>)
        requires
            known(self.counts(), symbol),
        ensures
            (r.start as nat, r.end as nat) == bucket_range(self.counts(), bucket(symbol)),
            r.start < r.end <= total_of(self.counts()),
    {
        proof {
            use_type_invariant(self);
            self.lemma_counts();
        }
        let n = self.freq.len();
        let k: usize = match symbol {
            None => 0,
            Some(s) => s + 1,
        };
        let start = self.prefix_sum(k as u64);
        proof {
            if k + 1 < self.freq@.len() {
                lemma_prefix_rises(self.freq@, k + 1, self.freq@.len() as int);
            }
        }
        let end = start + self.freq[k];
        start..end
    }

    /// The symbol (or EOF) whose interval holds `value`, found by descending
    /// the tree from its widest span.
    pub fn symbol(&self, value: u64) -> (r: Option<usize>)
        requires
            value < total_of(self.counts()),
        ensures
            r == symbol_of(self.counts(), value as nat),
            bucket(r) == bucket_of(self.counts(), value as nat),
            known(self.counts(), r),
            self.counts()[bucket(r) as int] <= value < self.counts()[bucket(r) + 1int],
    {
        proof {
            use_type_invariant(self);
            self.lemma_counts();
        }
        let ghost f = self.freq@;
        let size: usize = self.tree.len();
        let n: u64 = self.freq.len() as u64;
        let mut step: u64 = 1;
        proof {
            assert(1u64 & 0u64 == 0) by (bit_vector);
        }
        while step <= n / 2
            invariant
                1 <= step <= n,
                n <= MAX_BUCKETS,
                step & ((step - 1) as u64) == 0,
            decreases n - step,
        {
            proof {
                assert(step & ((step - 1) as u64) == 0 && step <= 0x4000_0000_0000_0000u64 ==> ((2
                    * step) as u64) & ((2 * step - 1) as u64) == 0) by (bit_vector);
            }
            step = 2 * step;
        }
        let mut pos: u64 = 0;
        let mut rem: u64 = value;
        let ghost mut span: u64 = (2 * step) as u64;
        proof {
            assert(step & ((step - 1) as u64) == 0 && 1 <= step <= 0x4000_0000_0000_0000u64 ==> ((2
                * step) as u64) & ((2 * step - 1) as u64) == 0) by (bit_vector);
            assert(0u64 & ((span - 1) as u64) == 0) by (bit_vector);
        }
        while step > 0
            invariant
                tree_of(f, self.tree@),
                f == self.freq@,
                n == f.len(),
                size == self.tree@.len(),
                n <= MAX_BUCKETS,
                value < prefix(f, n as int),
                pos <= n,
                prefix(f, pos as int) <= value,
                rem == value - prefix(f, pos as int),
                span >= 1,
                span <= 2 * MAX_BUCKETS + 2,
                span & ((span - 1) as u64) == 0,
                pos & ((span - 1) as u64) == 0,
                step == 0 ==> span == 1,
                step > 0 ==> span == 2 * step,
                step > 0 ==> step & ((step - 1) as u64) == 0,
                pos + span > n || value < prefix(f, pos + span),
            decreases step,
        {
            let candidate = pos + step;
            proof {
                lemma_lowbit_half(pos, span);
                assert(span / 2 == step);
                if candidate <= n {
                    assert(self.tree@[candidate as int] == prefix(f, candidate as int) - prefix(
                        f,
                        candidate - lowbit(candidate),
                    ));
                }
            }
            if candidate <= n && self.tree[candidate as usize] <= rem {
                proof {
                    lemma_prefix_nonneg(f, pos as int);
                }
                rem = rem - self.tree[candidate as usize];
                pos = candidate;
                proof {
                    assert(step & ((step - 1) as u64) == 0 && (((pos - step) as u64) & ((2 * step
                        - 1) as u64)) == 0 && step >= 1 && pos >= step ==> (pos & ((step - 1) as u64))
                        == 0) by (bit_vector);
                }
            } else {
                proof {
                    if candidate <= n {
                        lemma_prefix_nonneg(f, pos as int);
                    }
                    assert(step & ((step - 1) as u64) == 0 && (pos & ((2 * step - 1) as u64)) == 0
                        && step >= 1 ==> (pos & ((step - 1) as u64)) == 0) by (bit_vector);
                }
            }
            proof {
                assert(step >= 1 && step & ((step - 1) as u64) == 0 && step > 1 ==> ((step / 2)
                    as u64) & ((step / 2 - 1) as u64) == 0) by (bit_vector);
                assert(step & ((step - 1) as u64) == 0 && step >= 2 ==> 2 * (step / 2) == step)
                    by (bit_vector);
                span = step;
            }
            step = step / 2;
        }
        proof {
            assert(pos < n);
            assert(self.counts()[pos as int] == prefix(f, pos as int));
            assert(self.counts()[pos + 1] == prefix(f, pos + 1));
            lemma_bucket_of(self.counts(), value as nat, pos as nat);
        }
        if pos == 0 {
            None
        } else {
            Some((pos - 1) as usize)
        }
    }

    /// Adds `delta` to the frequency of `symbol` (EOF for `None`).
    pub fn update(&mut self, symbol: Option<usize>, delta: u64)
        requires
            known(old(self).counts(), symbol),
            total_of(old(self).counts()) + delta <= u64::MAX,
        ensures
            final(self).counts() == added(old(self).counts(), bucket(symbol), delta as nat),
            counts_wf(final(self).counts()),
            total_of(final(self).counts()) == total_of(old(self).counts()) + delta,
    {
        proof {
            use_type_invariant(&*self);
            self.lemma_counts();
        }
        let ghost old_counts = self.counts();
        let mut taken = Weights::new(0);
        std::mem::swap(self, &mut taken);
        proof {
            use_type_invariant(&taken);
        }
        let Weights { mut freq, mut tree } = taken;
        let ghost f = freq@;
        let ghost t = tree@;
        let n: u64 = freq.len() as u64;
        let size: usize = tree.len();
        let b: usize = match symbol {
            None => 0,
            Some(s) => s + 1,
        };
        proof {
            lemma_prefix_rises(f, b as int, b + 1);
            lemma_prefix_nonneg(f, b as int);
            if b + 1 < f.len() {
                lemma_prefix_rises(f, b + 1, f.len() as int);
            }
        }
        let value = freq[b] + delta;
        freq.set(b, value);
        let ghost g = freq@;
        proof {
            assert(g == f.update(b as int, (f[b as int] + delta) as u64));
            assert forall|k: int| 0 <= k <= f.len() implies prefix(g, k) == prefix(f, k) + if k > b {
                delta as int
            } else {
                0
            } by {
                lemma_prefix_added(f, b as int, delta as int, k);
            }
        }
        let mut i: u64 = (b + 1) as u64;
        proof {
            lemma_lowbit_bounds(i);
        }
        while i <= n
            invariant
                i <= 2 * n,
                n == f.len() == g.len(),
                n <= MAX_BUCKETS,
                tree_of(f, t),
                b < n,
                b + 1 <= i,
                i <= n ==> i - lowbit(i) <= b,
                tree@.len() == t.len(),
                size == t.len(),
                freq@ == g,
                forall|k: int| 0 <= k <= f.len() ==> prefix(g, k) == prefix(f, k) + if k > b {
                    delta as int
                } else {
                    0
                },
                prefix(f, n as int) + delta <= u64::MAX,
                forall|j: int|
                    1 <= j <= n ==> #[trigger] tree@[j] == t[j] + if j < i && j - lowbit(j as u64)
                        <= b && b < j {
                        delta as int
                    } else {
                        0
                    },
                tree@[0] == t[0],
            decreases 2 * n + 1 - i,
        {
            proof {
                lemma_lowbit_bounds(i);
                lemma_prefix_nonneg(f, i - lowbit(i));
                if (i as int) < n {
                    lemma_prefix_rises(f, i as int, n as int);
                }
            }
            let entry = tree[i as usize] + delta;
            tree.set(i as usize, entry);
            let low = lowest_bit(i);
            proof {
                lemma_lowbit_next(i);
                assert forall|j: int| i < j < i + low && j <= n implies !(j - #[trigger] lowbit(j as u64) <= b) by {
                    lemma_lowbit_gap(i, j as u64);
                }
            }
            i = i + low;
        }
        proof {
            assert forall|j: int| 1 <= j <= n implies #[trigger] tree@[j] == prefix(g, j) - prefix(g, j - lowbit(j as u64)) by {
                lemma_lowbit_bounds(j as u64);
            }
        }
        *self = Weights { freq, tree };
        proof {
            self.lemma_counts();
            assert(self.counts() =~= added(old_counts, bucket(symbol), delta as nat));
        }
    }
}

} // verus!
