//! Mapping of text symbols to dense codes, with code `0` kept for the
//! sentinel that ends every indexed text.
use vstd::prelude::*;

verus! {

/// A bijection between the symbols a text may hold and the codes `0..len()`.
#[derive(Clone, Copy, Debug, PartialEq, Eq, Structural)]
pub enum Converter {
    /// Symbols are their own codes; the alphabet is `0..size`.
    Identity { size: u64 },
    /// Symbols `min..=max` map to `1..`; `0` is the sentinel and maps to `0`
    /// (so a range that starts at `0` starts its codes at symbol `1`).
    Range { min: u64, max: u64 },
}

/// The first non-sentinel symbol of the range `min..=max`.
pub open spec fn low_of(min: u64) -> int {
    if min == 0 {
        1
    } else {
        min as int
    }
}

impl Converter {
    pub open spec fn wf(self) -> bool {
        match self {
            Converter::Identity { size } => size >= 1,
            Converter::Range { min, max } => min <= max && max - low_of(min) + 2 <= u64::MAX,
        }
    }

    /// Whether `x` is a symbol of this alphabet.
    pub open spec fn accepts(self, x: u64) -> bool {
        match self {
            Converter::Identity { size } => x < size,
            Converter::Range { min, max } => x == 0 || (min <= x <= max),
        }
    }

    pub open spec fn convert_spec(self, x: u64) -> u64 {
        match self {
            Converter::Identity { .. } => x,
            Converter::Range { min, .. } => if x == 0 {
                0
            } else {
                (x - low_of(min) + 1) as u64
            },
        }
    }

    pub open spec fn convert_inv_spec(self, c: u64) -> u64 {
        match self {
            Converter::Identity { .. } => c,
            Converter::Range { min, .. } => if c == 0 {
                0
            } else {
                (c + low_of(min) - 1) as u64
            },
        }
    }

    pub open spec fn len_spec(self) -> u64 {
        match self {
            Converter::Identity { size } => size,
            Converter::Range { min, max } => (max - low_of(min) + 2) as u64,
        }
    }

    /// The identity mapping on the alphabet `0..size`.
    pub fn identity(size: u64) -> (r: Converter)
        requires
            size >= 1,
        ensures
            r == (Converter::Identity { size }),
            r.wf(),
    {
        Converter::Identity { size }
    }

    /// The mapping of `min..=max` onto `1..`, with `0` kept for the sentinel.
    pub fn range(min: u64, max: u64) -> (r: Converter)
        requires
            min <= max,
            max - low_of(min) + 2 <= u64::MAX,
        ensures
            r == (Converter::Range { min, max }),
            r.wf(),
    {
        Converter::Range { min, max }
    }

    /// Whether `x` is a symbol of this alphabet.
    pub fn is_valid(&self, x: u64) -> (r: bool)
        ensures
            r == self.accepts(x),
    {
        match *self {
            Converter::Identity { size } => x < size,
            Converter::Range { min, max } => x == 0 || (min <= x && x <= max),
        }
    }

    /// The code of symbol `x`.
    pub fn convert(&self, x: u64) -> (r: u64)
        requires
            self.wf(),
            self.accepts(x),
        ensures
            r == self.convert_spec(x),
            r < self.len_spec(),
            (r == 0) == (x == 0),
    {
        match *self {
            Converter::Identity { .. } => x,
            Converter::Range { min, .. } => {
                let low = if min == 0 {
                    1
                } else {
                    min
                };
                if x == 0 {
                    0
                } else {
                    x - low + 1
                }
            },
        }
    }

    /// The symbol of code `c`.
    pub fn convert_inv(&self, c: u64) -> (r: u64)
        requires
            self.wf(),
            c < self.len_spec(),
        ensures
            r == self.convert_inv_spec(c),
            self.accepts(r),
            self.convert_spec(r) == c,
    {
        match *self {
            Converter::Identity { .. } => c,
            Converter::Range { min, .. } => {
                let low = if min == 0 {
                    1
                } else {
                    min
                };
                if c == 0 {
                    0
                } else {
                    c - 1 + low
                }
            },
        }
    }

    /// The number of codes, sentinel included.
    pub fn len(&self) -> (r: u64)
        requires
            self.wf(),
        ensures
            r == self.len_spec(),
            r >= 1,
    {
        match *self {
            Converter::Identity { size } => size,
            Converter::Range { min, max } => {
                let low = if min == 0 {
                    1
                } else {
                    min
                };
                if max < low {
                    1
                } else {
                    max - low + 2
                }
            },
        }
    }

    /// Decoding a code gives back the symbol it was made from.
    pub proof fn lemma_round_trip(self, x: u64)
        requires
            self.wf(),
            self.accepts(x),
        ensures
            self.convert_inv_spec(self.convert_spec(x)) == x,
            self.convert_spec(x) < self.len_spec(),
    {
    }
}

} // verus!
