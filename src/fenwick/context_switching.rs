//! An adaptive model that keeps one set of weights for each previous symbol.
use super::{added, bucket, bucket_range, counts_wf, known, n_symbols, symbol_of, total_of, Weights};
use crate::model::Model;
use std::ops::Range;
use vstd::prelude::*;

verus! {

/// A symbol outside the model's alphabet.
pub struct ValueError(pub usize);

/// The bound on every context's denominator.
pub const MAX_DENOMINATOR: u64 = 131072;

/// An adaptive model over the symbols `0..n` and EOF with one set of weights
/// (a context) for each previous symbol: context `s + 1` follows the symbol
/// `s`, and context 0 starts the stream and follows EOF. Each context grows
/// as the simple model does and freezes at the maximum denominator.
pub struct FenwickModel {
    contexts: Vec<Weights>,
    current_context: usize,
    max_denominator: u64,
}

impl FenwickModel {
    /// A model over `symbols` symbols, every context uniform.
    pub fn with_symbols(symbols: usize) -> (r: Self)
        requires
            symbols + 1 <= MAX_DENOMINATOR,
        ensures
            FenwickModel::valid(r.snapshot()),
            r.snapshot() == (
                Seq::new((symbols + 1) as nat, |_i: int| Seq::new((symbols + 2) as nat, |k: int| k as u64)),
                0usize,
                MAX_DENOMINATOR,
            ),
    {
        let mut contexts: Vec<Weights> = Vec::new();
        let mut i: usize = 0;
        let ghost uniform = Seq::new((symbols + 2) as nat, |k: int| k as u64);
        while i <= symbols
            invariant
                i <= symbols + 1 <= MAX_DENOMINATOR,
                uniform == Seq::new((symbols + 2) as nat, |k: int| k as u64),
                counts_wf(uniform),
                total_of(uniform) == symbols + 1,
                contexts@.len() == i,
                forall|j: int| 0 <= j < i ==> (#[trigger] contexts@[j]).counts() == uniform,
            decreases symbols + 1 - i,
        {
            let w = Weights::new(symbols);
            contexts.push(w);
            i = i + 1;
        }
        let r = Self { contexts, current_context: 0, max_denominator: MAX_DENOMINATOR };
        assert(r.snapshot().0 =~= Seq::new((symbols + 1) as nat, |_i: int| uniform));
        r
    }

    /// The weights of the current context.
    pub fn context(&self) -> (r: &Weights)
        requires
            FenwickModel::valid(self.snapshot()),
        ensures
            r.counts() == self.snapshot().0[self.snapshot().1 as int],
    {
        &self.contexts[self.current_context]
    }

    /// The weights of the current context, to change them.
    pub fn context_mut(&mut self) -> (r: &mut Weights)
        requires
            FenwickModel::valid(old(self).snapshot()),
        ensures
            r.counts() == old(self).snapshot().0[old(self).snapshot().1 as int],
            final(self).snapshot() == (
                old(self).snapshot().0.update(old(self).snapshot().1 as int, final(r).counts()),
                old(self).snapshot().1,
                old(self).snapshot().2,
            ),
    {
        let i = self.current_context;
        let r = &mut self.contexts[i];
        r
    }
}

impl Model for FenwickModel {
    type B = u64;

    type Symbol = usize;

    type ValueError = ValueError;

    type Snapshot = (Seq<Seq<u64>>, usize, u64);

    closed spec fn snapshot(&self) -> (Seq<Seq<u64>>, usize, u64) {
        (
            self.contexts@.map_values(|w: Weights| w.counts()),
            self.current_context,
            self.max_denominator,
        )
    }

    open spec fn valid(m: (Seq<Seq<u64>>, usize, u64)) -> bool {
        &&& m.1 < m.0.len()
        &&& forall|i: int|
            0 <= i < m.0.len() ==> {
                &&& counts_wf(#[trigger] m.0[i])
                &&& n_symbols(m.0[i]) + 1 == m.0.len()
                &&& total_of(m.0[i]) <= m.2
            }
    }

    open spec fn spec_denominator(m: (Seq<Seq<u64>>, usize, u64)) -> nat {
        total_of(m.0[m.1 as int])
    }

    open spec fn spec_max_denominator(m: (Seq<Seq<u64>>, usize, u64)) -> nat {
        m.2 as nat
    }

    open spec fn spec_symbol(m: (Seq<Seq<u64>>, usize, u64), value: nat) -> Option<usize> {
        symbol_of(m.0[m.1 as int], value)
    }

    open spec fn spec_probability(m: (Seq<Seq<u64>>, usize, u64), symbol: Option<usize>) -> Option<
        (nat, nat),
    > {
        if known(m.0[m.1 as int], symbol) {
            Some(bucket_range(m.0[m.1 as int], bucket(symbol)))
        } else {
            None
        }
    }

    open spec fn spec_error(m: (Seq<Seq<u64>>, usize, u64), symbol: Option<usize>) -> ValueError {
        ValueError(
            match symbol {
                Some(s) => s,
                None => 0,
            },
        )
    }

    open spec fn spec_updated(m: (Seq<Seq<u64>>, usize, u64), symbol: Option<usize>) -> (
        Seq<Seq<u64>>,
        usize,
        u64,
    ) {
        let current = m.0[m.1 as int];
        if !known(current, symbol) {
            m
        } else if total_of(current) < m.2 {
            (m.0.update(m.1 as int, added(current, bucket(symbol), 1)), bucket(symbol) as usize, m.2)
        } else {
            (m.0, bucket(symbol) as usize, m.2)
        }
    }

    proof fn lemma_denominator(m: (Seq<Seq<u64>>, usize, u64)) {
        let c = m.0[m.1 as int];
        assert(counts_wf(c));
        assert(c[0] < c[c.len() - 1]);
    }

    proof fn lemma_interval(m: (Seq<Seq<u64>>, usize, u64), symbol: Option<usize>) {
        let c = m.0[m.1 as int];
        assert(counts_wf(c) && total_of(c) <= m.2 && n_symbols(c) + 1 == m.0.len());
        let b = bucket(symbol);
        if b + 1 < c.len() - 1 {
            assert(c[b + 1int] < c[c.len() - 1]);
        }
        assert(c[b as int] < c[b + 1int]);
        super::saturation::lemma_update_valid((c, m.2), symbol);
        let next = Self::spec_updated(m, symbol);
        assert forall|i: int| 0 <= i < next.0.len() implies {
            &&& counts_wf(#[trigger] next.0[i])
            &&& n_symbols(next.0[i]) + 1 == next.0.len()
            &&& total_of(next.0[i]) <= next.2
        } by {
            assert(counts_wf(m.0[i]) && n_symbols(m.0[i]) + 1 == m.0.len() && total_of(m.0[i]) <= m.2);
        }
    }

    proof fn lemma_owner(m: (Seq<Seq<u64>>, usize, u64), symbol: Option<usize>, value: nat) {
        let c = m.0[m.1 as int];
        assert(counts_wf(c));
        super::lemma_bucket_of(c, value, bucket(symbol));
    }

    fn probability(&self, symbol: Option<&usize>) -> (r: Result<Range<u64>, ValueError>) {
        let context = self.context();
        match symbol {
            None => Ok(context.range(None)),
            Some(s) => {
                if *s < context.len() {
                    Ok(context.range(Some(*s)))
                } else {
                    Err(ValueError(*s))
                }
            },
        }
    }

    fn denominator(&self) -> (r: u64) {
        let context = self.context();
        proof {
            let c = context.counts();
            assert(c[0] < c[c.len() - 1]);
        }
        context.total()
    }

    fn max_denominator(&self) -> (r: u64) {
        self.max_denominator
    }

    fn symbol(&self, value: u64) -> (r: Option<usize>) {
        self.context().symbol(value)
    }

    fn update(&mut self, symbol: Option<&usize>) {
        let n = self.context().len();
        let next: usize = match symbol {
            None => 0,
            Some(s) => {
                if *s >= n {
                    return;
                }
                *s + 1
            },
        };
        let sym: Option<usize> = match symbol {
            None => None,
            Some(s) => Some(*s),
        };
        if self.context().total() < self.max_denominator {
            let context = self.context_mut();
            context.update(sym, 1);
        }
        self.current_context = next;
    }
}

} // verus!
