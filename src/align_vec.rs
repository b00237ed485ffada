use vstd::prelude::*;

verus! {

/// Number of `usize` words of filler that, together with the three words of
/// a `Vec`, fill one 128-byte cache line on a 64-bit target.
pub const PADDING_WORDS: usize = 13;

/// A `Vec` padded to the width of a cache line, so that two of them never
/// share one.
#[derive(Debug)]
pub struct AlignVec<T> {
    vec: Vec<T>,
    padding: [usize; PADDING_WORDS],
}

impl<T> View for AlignVec<T> {
    type V = Seq<T>;

    closed spec fn view(&self) -> Seq<T> {
        self.vec@
    }
}

impl<T> AlignVec<T> {
    /// Wraps `vec`.
    pub fn new(vec: Vec<T>) -> (r: Self)
        ensures
            r@ == vec@,
    {
        AlignVec { vec, padding: [0usize; PADDING_WORDS] }
    }

    /// The wrapped vector.
    pub fn as_vec(&self) -> (r: &Vec<T>)
        ensures
            r@ == self@,
    {
        &self.vec
    }

    /// The wrapped vector, for writing.
    pub fn as_mut_vec(&mut self) -> (r: &mut Vec<T>)
        ensures
            r@ == old(self)@,
            final(r)@ == final(self)@,
    {
        &mut self.vec
    }
}

} // verus!
