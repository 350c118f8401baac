//! Caller-owned bit windows over one transport frame's payload.

use vstd::prelude::*;

verus! {

/// Outcome of a (partial) serialization call.
#[derive(Clone, Copy, PartialEq, Eq, Structural, Debug)]
pub enum SerializationResult {
    /// The whole record has been written.
    Finished,
    /// The frame window is full; resume with a fresh buffer and the same cursor.
    BufferFull,
}

/// Outcome of a (partial) deserialization call.
#[derive(Clone, Copy, PartialEq, Eq, Structural, Debug)]
pub enum DeserializationResult {
    /// The whole record has been read.
    Finished,
    /// The frame window is exhausted; resume with the next one and the same cursor.
    BufferInsufficient,
    /// Malformed wire data: a dynamic array announced more elements than its
    /// declared capacity. The transfer must be discarded.
    InvalidLength,
}

/// A bounded bit sink scoped to one outgoing frame.
///
/// Bit `i` of the frame is the `i`-th bit pushed; scalars arrive LSB first.
pub struct SerializationBuffer {
    bits: Vec<bool>,
    capacity: usize,
}

impl SerializationBuffer {
    /// The bits written so far, in wire order.
    pub closed spec fn view(&self) -> Seq<bool> {
        self.bits@
    }

    /// The fixed size of the frame window, in bits.
    pub closed spec fn cap(&self) -> nat {
        self.capacity as nat
    }

    pub open spec fn wf(&self) -> bool {
        self@.len() <= self.cap()
    }

    /// An empty window able to hold `capacity` bits.
    pub fn new(capacity: usize) -> (r: SerializationBuffer)
        ensures
            r.wf(),
            r@ == Seq::<bool>::empty(),
            r.cap() == capacity,
    {
        SerializationBuffer { bits: Vec::new(), capacity }
    }

    /// Number of bits still free in the window.
    pub fn free_bits(&self) -> (n: usize)
        requires
            self.wf(),
        ensures
            n == self.cap() - self@.len(),
    {
        self.capacity - self.bits.len()
    }

    /// Number of bits written so far.
    pub fn bit_length(&self) -> (n: usize)
        ensures
            n == self@.len(),
    {
        self.bits.len()
    }

    /// Appends one bit; the window must not be full.
    pub fn push_bit(&mut self, b: bool)
        requires
            old(self).wf(),
            old(self)@.len() < old(self).cap(),
        ensures
            final(self).wf(),
            final(self)@ == old(self)@.push(b),
            final(self).cap() == old(self).cap(),
    {
        self.bits.push(b);
    }

    /// Reads back the bit at index `i` of the frame written so far.
    pub fn get_bit(&self, i: usize) -> (b: bool)
        requires
            i < self@.len(),
        ensures
            b == self@[i as int],
    {
        self.bits[i]
    }
}

/// A bounded bit source over one incoming frame, consumed front to back.
pub struct DeserializationBuffer {
    bits: Vec<bool>,
    pos: usize,
}

impl DeserializationBuffer {
    /// All bits of the frame, in wire order.
    pub closed spec fn view(&self) -> Seq<bool> {
        self.bits@
    }

    /// Index of the next unread bit.
    pub closed spec fn at(&self) -> nat {
        self.pos as nat
    }

    pub open spec fn wf(&self) -> bool {
        self.at() <= self@.len()
    }

    /// A window over the given frame bits, nothing consumed yet.
    pub fn new(bits: Vec<bool>) -> (r: DeserializationBuffer)
        ensures
            r.wf(),
            r@ == bits@,
            r.at() == 0,
    {
        DeserializationBuffer { bits, pos: 0 }
    }

    /// Number of bits not yet consumed.
    pub fn bit_length(&self) -> (n: usize)
        requires
            self.wf(),
        ensures
            n == self@.len() - self.at(),
    {
        self.bits.len() - self.pos
    }

    /// Consumes and returns the next bit.
    pub fn pop_bit(&mut self) -> (b: bool)
        requires
            old(self).wf(),
            old(self).at() < old(self)@.len(),
        ensures
            final(self).wf(),
            final(self)@ == old(self)@,
            final(self).at() == old(self).at() + 1,
            b == old(self)@[old(self).at() as int],
    {
        let len = self.bits.len();
        let b = self.bits[self.pos];
        if self.pos < len {
            self.pos = self.pos + 1;
        }
        b
    }
}

} // verus!
