//! Bit sinks and bit sources: sequences of bits written and read in order.

use std::collections::VecDeque;
use vstd::prelude::*;

verus! {

/// An append-only sink of bits.
pub trait BitWrite {
    /// The bits written so far, oldest first.
    spec fn written(&self) -> Seq<bool>;

    /// Appends one bit.
    fn write_bit(&mut self, bit: bool)
        ensures
            final(self).written() == old(self).written().push(bit),
    ;
}

/// A source of bits with a read cursor.
pub trait BitRead {
    /// The bits not yet read, next first.
    spec fn unread(&self) -> Seq<bool>;

    /// Reads the next bit and moves past it, or returns `None` at the end
    /// of the source.
    fn read_bit(&mut self) -> (bit: Option<bool>)
        ensures
            match bit {
                Some(b) => {
                    &&& old(self).unread().len() > 0
                    &&& b == old(self).unread()[0]
                    &&& final(self).unread() == old(self).unread().skip(1)
                },
                None => {
                    &&& old(self).unread().len() == 0
                    &&& final(self).unread() == old(self).unread()
                },
            },
    ;
}

/// A queue of bits is a sink at its back.
impl BitWrite for VecDeque<bool> {
    open spec fn written(&self) -> Seq<bool> {
        self@
    }

    fn write_bit(&mut self, bit: bool) {
        self.push_back(bit);
    }
}

/// A queue of bits is a source at its front.
impl BitRead for VecDeque<bool> {
    open spec fn unread(&self) -> Seq<bool> {
        self@
    }

    fn read_bit(&mut self) -> (bit: Option<bool>) {
        self.pop_front()
    }
}

} // verus!
