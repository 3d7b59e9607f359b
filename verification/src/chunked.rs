//! A growable array that never moves what it holds.
use vstd::prelude::*;

verus! {

const CHUNK_BITS: usize = 22;

/// `2 ^ CHUNK_BITS`, the number of elements in a full chunk.
const CHUNK: usize = 0x40_0000;

/// A growable array that never moves what it holds: fixed-size chunks.
pub struct Chunked<T> {
    chunks: Vec<Vec<T>>,
    len: usize,
}

impl<T> View for Chunked<T> {
    type V = Seq<T>;

    closed spec fn view(&self) -> Seq<T> {
        Seq::new(self.len as nat, |i: int| self.chunks@[i / CHUNK as int]@[i % CHUNK as int])
    }
}

impl<T> Chunked<T> {
    /// Every chunk is full but the last, and the chunks hold `len` elements.
    pub closed spec fn wf(&self) -> bool {
        &&& self.len <= self.chunks@.len() * CHUNK
        &&& self.chunks@.len() * CHUNK < self.len + CHUNK
        &&& forall|c: int|
            0 <= c < self.chunks@.len() ==> (#[trigger] self.chunks@[c])@.len() == (if (c + 1)
                * CHUNK <= self.len {
                CHUNK as int
            } else {
                self.len - c * CHUNK
            })
    }
}

proof fn lemma_position(i: usize)
    ensures
        i >> CHUNK_BITS == i / CHUNK,
        i & ((CHUNK - 1) as usize) == i % CHUNK,
{
    assert(i >> 22usize == i / 0x40_0000usize) by (bit_vector);
    assert(i & 0x3f_ffffusize == i % 0x40_0000usize) by (bit_vector);
}

impl<T: Copy> Chunked<T> {
    /// The empty array.
    pub fn new() -> (array: Self)
        ensures
            array.wf(),
            array@ == Seq::<T>::empty(),
    {
        Self { chunks: Vec::new(), len: 0 }
    }

    /// Appends `x`. No element that is already there moves.
    pub fn push(&mut self, x: T)
        requires
            old(self).wf(),
            old(self)@.len() < usize::MAX,
        ensures
            final(self).wf(),
            final(self)@ == old(self)@.push(x),
    {
        if self.len % CHUNK == 0 {
            self.chunks.push(Vec::with_capacity(CHUNK));
        }
        let last: usize = self.chunks.len() - 1;
        self.chunks[last].push(x);
        self.len += 1;
        assert(self@ =~= old(self)@.push(x));
    }

    pub fn len(&self) -> (len: usize)
        ensures
            len == self@.len(),
    {
        self.len
    }

    pub fn is_empty(&self) -> (empty: bool)
        ensures
            empty == (self@.len() == 0),
    {
        self.len == 0
    }

    /// Replaces element `i` by `x`.
    pub fn set(&mut self, i: usize, x: T)
        requires
            old(self).wf(),
            i < old(self)@.len(),
        ensures
            final(self).wf(),
            final(self)@ == old(self)@.update(i as int, x),
    {
        proof {
            lemma_position(i);
        }
        self.chunks[i >> CHUNK_BITS][i & (CHUNK - 1)] = x;
        assert(self@ =~= old(self)@.update(i as int, x));
    }

    /// Element `i`.
    pub fn get(&self, i: usize) -> (x: T)
        requires
            self.wf(),
            i < self@.len(),
        ensures
            x == self@[i as int],
    {
        proof {
            lemma_position(i);
        }
        self.chunks[i >> CHUNK_BITS][i & (CHUNK - 1)]
    }
}

impl<T: Copy> core::ops::Index<usize> for Chunked<T> {
    type Output = T;

    /// Element `i`.
    fn index(&self, i: usize) -> (x: &T)
        ensures
            *x == self@[i as int],
    {
        proof {
            lemma_position(i);
        }
        &self.chunks[i >> CHUNK_BITS][i & (CHUNK - 1)]
    }
}

impl<T: Copy> vstd::std_specs::core::IndexSpecImpl<usize> for Chunked<T> {
    open spec fn index_req(&self, i: &usize) -> bool {
        self.wf() && *i < self@.len()
    }
}

} // verus!
