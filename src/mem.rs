//! Fixed-capacity memories: read/write (`Ram`) and read-only (`Rom`).
use vstd::prelude::*;

verus! {

/// A vector of `n` zero bytes.
fn zeros(n: usize) -> (r: Vec<u8>)
    ensures
        r@ == Seq::new(n as nat, |_k: int| 0u8),
{
    let mut v: Vec<u8> = Vec::with_capacity(n);
    let mut k: usize = 0;
    while k < n
        invariant
            k <= n,
            v@ == Seq::new(k as nat, |_j: int| 0u8),
        decreases n - k,
    {
        v.push(0u8);
        k += 1;
        assert(v@ =~= Seq::new(k as nat, |_j: int| 0u8));
    }
    v
}

/// A vector holding a copy of `bytes`.
fn copy_of(bytes: &[u8]) -> (r: Vec<u8>)
    ensures
        r@ == bytes@,
{
    let mut v: Vec<u8> = Vec::with_capacity(bytes.len());
    let mut k: usize = 0;
    while k < bytes.len()
        invariant
            k <= bytes@.len(),
            v@ == bytes@.subrange(0, k as int),
        decreases bytes@.len() - k,
    {
        v.push(bytes[k]);
        k += 1;
        assert(v@ =~= bytes@.subrange(0, k as int));
    }
    assert(v@ =~= bytes@);
    v
}

/// The contents of a memory of `n` bytes after power-on or reset.
pub open spec fn blank(n: nat) -> Seq<u8> {
    Seq::new(n, |_k: int| 0u8)
}

/// Random-access memory: a fixed number of bytes, each readable and writable.
pub struct Ram {
    data: Vec<u8>,
}

impl View for Ram {
    type V = Seq<u8>;

    closed spec fn view(&self) -> Seq<u8> {
        self.data@
    }
}

impl Ram {
    /// A memory of `n` bytes, all zero.
    pub fn new(n: usize) -> (r: Ram)
        ensures
            r@ == blank(n as nat),
    {
        Ram { data: zeros(n) }
    }

    /// A memory initialized with a copy of `bytes`; its capacity is their count.
    pub fn from(bytes: &[u8]) -> (r: Ram)
        ensures
            r@ == bytes@,
    {
        Ram { data: copy_of(bytes) }
    }

    /// Whether `index` is addressable: exactly the indices below the capacity.
    pub fn contains(&self, index: usize) -> (r: bool)
        ensures
            r == (index < self@.len()),
    {
        index < self.data.len()
    }

    /// Number of addressable bytes.
    pub fn len(&self) -> (r: usize)
        ensures
            r == self@.len(),
    {
        self.data.len()
    }

    /// The byte stored at `index`.
    pub fn read(&self, index: usize) -> (r: u8)
        requires
            index < self@.len(),
        ensures
            r == self@[index as int],
    {
        self.data[index]
    }

    /// Stores `value` at `index`, leaving every other byte as it was.
    pub fn write(&mut self, index: usize, value: u8)
        requires
            index < old(self)@.len(),
        ensures
            final(self)@ == old(self)@.update(index as int, value),
    {
        self.data.set(index, value);
    }

    /// Clears every byte back to zero; the capacity is kept.
    pub fn reset(&mut self)
        ensures
            final(self)@ == blank(old(self)@.len()),
    {
        self.data = zeros(self.data.len());
    }

    /// The stored bytes, in index order.
    pub fn bytes(&self) -> (r: &[u8])
        ensures
            r@ == self@,
    {
        self.data.as_slice()
    }
}

/// Read-only memory: a fixed image of bytes, readable and never written.
///
/// It offers no `write`: storing into a read-only memory is a programming
/// error that callers are held to avoid.
pub struct Rom {
    data: Vec<u8>,
}

impl View for Rom {
    type V = Seq<u8>;

    closed spec fn view(&self) -> Seq<u8> {
        self.data@
    }
}

impl Rom {
    /// A read-only memory of `n` zero bytes.
    pub fn new(n: usize) -> (r: Rom)
        ensures
            r@ == blank(n as nat),
    {
        Rom { data: zeros(n) }
    }

    /// A read-only memory holding a copy of the image `bytes`.
    pub fn from(bytes: &[u8]) -> (r: Rom)
        ensures
            r@ == bytes@,
    {
        Rom { data: copy_of(bytes) }
    }

    /// Whether `index` is addressable: exactly the indices below the capacity.
    pub fn contains(&self, index: usize) -> (r: bool)
        ensures
            r == (index < self@.len()),
    {
        index < self.data.len()
    }

    /// Number of addressable bytes.
    pub fn len(&self) -> (r: usize)
        ensures
            r == self@.len(),
    {
        self.data.len()
    }

    /// The byte of the image at `index`.
    pub fn read(&self, index: usize) -> (r: u8)
        requires
            index < self@.len(),
        ensures
            r == self@[index as int],
    {
        self.data[index]
    }

    /// Restores the power-on state, which is the image itself: nothing changes.
    pub fn reset(&mut self)
        ensures
            final(self)@ == old(self)@,
    {
    }

    /// The image, in index order.
    pub fn bytes(&self) -> (r: &[u8])
        ensures
            r@ == self@,
    {
        self.data.as_slice()
    }
}

} // verus!
