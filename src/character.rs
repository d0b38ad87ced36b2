//! Symbol types: unsigned integers, each with its value as a `u64`.
use vstd::prelude::*;

verus! {

/// A symbol of a text: an unsigned integer, read as a `u64`.
pub trait Character: Copy + Sized {
    /// The value of the symbol.
    spec fn value(self) -> u64;

    fn to_u64(self) -> (r: u64)
        ensures
            r == self.value(),
    ;
}

impl Character for u8 {
    open spec fn value(self) -> u64 {
        self as u64
    }

    fn to_u64(self) -> (r: u64) {
        self as u64
    }
}

impl Character for u16 {
    open spec fn value(self) -> u64 {
        self as u64
    }

    fn to_u64(self) -> (r: u64) {
        self as u64
    }
}

impl Character for u32 {
    open spec fn value(self) -> u64 {
        self as u64
    }

    fn to_u64(self) -> (r: u64) {
        self as u64
    }
}

impl Character for u64 {
    open spec fn value(self) -> u64 {
        self
    }

    fn to_u64(self) -> (r: u64) {
        self
    }
}

/// The values of the symbols `s`.
pub open spec fn values_of<T: Character>(s: Seq<T>) -> Seq<u64> {
    s.map_values(|x: T| x.value())
}

/// The values of the symbols `s`, in a new vector.
pub fn to_values<T: Character>(s: &[T]) -> (r: Vec<u64>)
    ensures
        r@ == values_of(s@),
{
    let n = s.len();
    let mut r: Vec<u64> = Vec::new();
    let mut k: usize = 0;
    while k < n
        invariant
            n == s@.len(),
            k <= n,
            r@ == values_of(s@.subrange(0, k as int)),
        decreases n - k,
    {
        r.push(s[k].to_u64());
        assert(s@.subrange(0, k + 1) == s@.subrange(0, k as int).push(s@[k as int]));
        k = k + 1;
    }
    assert(s@.subrange(0, n as int) == s@);
    r
}

} // verus!
