//! A static model in which every symbol is equally likely.
use crate::fixed_length;
use crate::max_length;
use crate::model::Model;
use crate::one_shot;
use std::ops::Range;
use vstd::prelude::*;

verus! {

/// The largest alphabet that [`Uniform`] takes.
pub const MAX_SYMBOLS: u32 = 0x3fff_ffff;

/// A symbol outside the alphabet.
pub struct OutOfAlphabet(pub usize);

/// Equal odds for the symbols `0..symbols`, for a stream of `length` symbols.
///
/// As a general [`Model`], EOF takes slot 0 and symbol `s` the interval
/// `[s + 1, s + 2)` of `symbols + 1`; `length` is then the bound that
/// [`max_length::Model`] reads. As a [`fixed_length::Model`] there is no EOF:
/// symbol `s` takes `[s, s + 1)` of `symbols`, and the stream holds exactly
/// `length` symbols. As a [`one_shot::Model`] it is the fixed-length model
/// of a single symbol.
pub struct Uniform {
    symbols: u32,
    length: usize,
}

impl Uniform {
    /// The model of `symbols` symbols and streams of `length` symbols.
    pub fn new(symbols: u32, length: usize) -> (r: Self)
        requires
            1 <= symbols <= MAX_SYMBOLS,
        ensures
            <Uniform as Model>::snapshot(&r) == (symbols, length),
            <Uniform as Model>::valid((symbols, length)),
            <Uniform as fixed_length::Model>::snapshot(&r) == (symbols, length),
            <Uniform as fixed_length::Model>::valid((symbols, length)),
            <Uniform as one_shot::Model>::snapshot(&r) == (symbols, length),
            <Uniform as one_shot::Model>::valid((symbols, length)),
    {
        Uniform { symbols, length }
    }
}

impl Model for Uniform {
    type B = u32;

    type Symbol = usize;

    type ValueError = OutOfAlphabet;

    type Snapshot = (u32, usize);

    closed spec fn snapshot(&self) -> (u32, usize) {
        (self.symbols, self.length)
    }

    open spec fn valid(m: (u32, usize)) -> bool {
        1 <= m.0 <= MAX_SYMBOLS
    }

    open spec fn spec_denominator(m: (u32, usize)) -> nat {
        m.0 as nat + 1
    }

    open spec fn spec_max_denominator(m: (u32, usize)) -> nat {
        m.0 as nat + 1
    }

    open spec fn spec_symbol(m: (u32, usize), value: nat) -> Option<usize> {
        if value == 0 {
            None
        } else {
            Some((value - 1) as usize)
        }
    }

    open spec fn spec_probability(m: (u32, usize), symbol: Option<usize>) -> Option<(nat, nat)> {
        match symbol {
            None => Some((0, 1)),
            Some(s) => if s < m.0 {
                Some(((s + 1) as nat, (s + 2) as nat))
            } else {
                None
            },
        }
    }

    open spec fn spec_error(m: (u32, usize), symbol: Option<usize>) -> OutOfAlphabet {
        OutOfAlphabet(
            match symbol {
                Some(s) => s,
                None => 0,
            },
        )
    }

    open spec fn spec_updated(m: (u32, usize), symbol: Option<usize>) -> (u32, usize) {
        m
    }

    proof fn lemma_denominator(m: (u32, usize)) {
    }

    proof fn lemma_interval(m: (u32, usize), symbol: Option<usize>) {
    }

    proof fn lemma_owner(m: (u32, usize), symbol: Option<usize>, value: nat) {
    }

    fn probability(&self, symbol: Option<&usize>) -> (r: Result<Range<u32>, OutOfAlphabet>) {
        match symbol {
            None => Ok(0..1),
            Some(s) => {
                if *s < self.symbols as usize {
                    Ok((*s as u32 + 1)..(*s as u32 + 2))
                } else {
                    Err(OutOfAlphabet(*s))
                }
            },
        }
    }

    fn denominator(&self) -> (r: u32) {
        self.symbols + 1
    }

    fn max_denominator(&self) -> (r: u32) {
        self.symbols + 1
    }

    fn symbol(&self, value: u32) -> (r: Option<usize>) {
        if value == 0 {
            None
        } else {
            Some((value - 1) as usize)
        }
    }

    fn update(&mut self, symbol: Option<&usize>) {
    }
}

impl max_length::Model for Uniform {
    open spec fn spec_max_length(m: (u32, usize)) -> nat {
        m.1 as nat
    }

    fn max_length(&self) -> (r: usize) {
        self.length
    }
}

impl fixed_length::Model for Uniform {
    type B = u32;

    type Symbol = usize;

    type ValueError = OutOfAlphabet;

    type Snapshot = (u32, usize);

    closed spec fn snapshot(&self) -> (u32, usize) {
        (self.symbols, self.length)
    }

    open spec fn valid(m: (u32, usize)) -> bool {
        1 <= m.0 <= MAX_SYMBOLS
    }

    open spec fn spec_denominator(m: (u32, usize)) -> nat {
        m.0 as nat
    }

    open spec fn spec_max_denominator(m: (u32, usize)) -> nat {
        m.0 as nat
    }

    open spec fn spec_length(m: (u32, usize)) -> nat {
        m.1 as nat
    }

    open spec fn spec_symbol(m: (u32, usize), value: nat) -> usize {
        value as usize
    }

    open spec fn spec_probability(m: (u32, usize), symbol: usize) -> Option<(nat, nat)> {
        if symbol < m.0 {
            Some((symbol as nat, (symbol + 1) as nat))
        } else {
            None
        }
    }

    open spec fn spec_error(m: (u32, usize), symbol: usize) -> OutOfAlphabet {
        OutOfAlphabet(symbol)
    }

    open spec fn spec_updated(m: (u32, usize), symbol: usize) -> (u32, usize) {
        m
    }

    proof fn lemma_denominator(m: (u32, usize)) {
    }

    proof fn lemma_interval(m: (u32, usize), symbol: usize) {
    }

    proof fn lemma_owner(m: (u32, usize), symbol: usize, value: nat) {
    }

    fn probability(&self, symbol: &usize) -> (r: Result<Range<u32>, OutOfAlphabet>) {
        if *symbol < self.symbols as usize {
            Ok((*symbol as u32)..(*symbol as u32 + 1))
        } else {
            Err(OutOfAlphabet(*symbol))
        }
    }

    fn denominator(&self) -> (r: u32) {
        self.symbols
    }

    fn max_denominator(&self) -> (r: u32) {
        self.symbols
    }

    fn symbol(&self, value: u32) -> (r: usize) {
        value as usize
    }

    fn length(&self) -> (r: usize) {
        self.length
    }

    fn update(&mut self, symbol: &usize) {
    }
}

impl one_shot::Model for Uniform {
    type B = u32;

    type Symbol = usize;

    type ValueError = OutOfAlphabet;

    type Snapshot = (u32, usize);

    closed spec fn snapshot(&self) -> (u32, usize) {
        (self.symbols, self.length)
    }

    open spec fn valid(m: (u32, usize)) -> bool {
        1 <= m.0 <= MAX_SYMBOLS
    }

    open spec fn spec_denominator(m: (u32, usize)) -> nat {
        m.0 as nat
    }

    open spec fn spec_max_denominator(m: (u32, usize)) -> nat {
        m.0 as nat
    }

    open spec fn spec_symbol(m: (u32, usize), value: nat) -> usize {
        value as usize
    }

    open spec fn spec_probability(m: (u32, usize), symbol: usize) -> Option<(nat, nat)> {
        if symbol < m.0 {
            Some((symbol as nat, (symbol + 1) as nat))
        } else {
            None
        }
    }

    proof fn lemma_denominator(m: (u32, usize)) {
    }

    proof fn lemma_interval(m: (u32, usize), symbol: usize) {
    }

    proof fn lemma_owner(m: (u32, usize), symbol: usize, value: nat) {
    }

    open spec fn spec_error(m: (u32, usize), symbol: usize) -> OutOfAlphabet {
        OutOfAlphabet(symbol)
    }

    fn probability(&self, symbol: &usize) -> (r: Result<Range<u32>, OutOfAlphabet>) {
        if *symbol < self.symbols as usize {
            Ok((*symbol as u32)..(*symbol as u32 + 1))
        } else {
            Err(OutOfAlphabet(*symbol))
        }
    }

    fn denominator(&self) -> (r: u32) {
        self.symbols
    }

    fn max_denominator(&self) -> (r: u32) {
        self.symbols
    }

    fn symbol(&self, value: u32) -> (r: usize) {
        value as usize
    }
}

} // verus!
