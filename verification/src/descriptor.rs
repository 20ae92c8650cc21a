//! The descriptor: an immutable record of the vector's state as of one
//! successful transition, with at most one element write still to land.
use vstd::prelude::*;

verus! {

/// One element write that a transition has announced and that any thread
/// may carry out on its behalf.
#[derive(Clone, Copy, Debug, PartialEq, Eq)]
pub struct WriteDescriptor {
    /// Value the slot held when the write was announced.
    pub old_value: usize,
    /// Value the write stores.
    pub new_value: usize,
    /// Logical index of the slot.
    pub pos: usize,
    /// Whether the write has been attempted.
    pub completed: bool,
}

impl WriteDescriptor {
    /// A write of `new` over `old` at index `p` that nobody has attempted yet.
    pub fn new(old: usize, new: usize, p: usize) -> (w: Self)
        ensures
            w == (WriteDescriptor { old_value: old, new_value: new, pos: p, completed: false }),
    {
        WriteDescriptor { old_value: old, new_value: new, pos: p, completed: false }
    }

    /// The same write, marked as attempted.
    pub open spec fn done(self) -> Self {
        WriteDescriptor { completed: true, ..self }
    }
}

/// What a descriptor says about the vector: its size and its pending write.
pub struct DescriptorView {
    pub size: usize,
    pub pending: Option<WriteDescriptor>,
}

impl DescriptorView {
    /// No write of this descriptor is still to land.
    pub open spec fn settled(self) -> bool {
        match self.pending {
            Some(w) => w.completed,
            None => true,
        }
    }

    /// The same descriptor once its pending write has been attempted.
    pub open spec fn complete(self) -> Self {
        match self.pending {
            Some(w) => DescriptorView { size: self.size, pending: Some(w.done()) },
            None => self,
        }
    }
}

/// State of the vector as of one transition.
#[derive(Clone, Copy, Debug, PartialEq, Eq)]
pub struct Descriptor {
    /// Logical element count.
    pub size: usize,
    /// Number of protections taken on this descriptor; only the
    /// reference-counting strategy reads it.
    pub counter: usize,
    /// The write this transition announced, if any.
    pub pending: Option<WriteDescriptor>,
}

impl View for Descriptor {
    type V = DescriptorView;

    open spec fn view(&self) -> DescriptorView {
        DescriptorView { size: self.size, pending: self.pending }
    }
}

impl Descriptor {
    /// A descriptor of size `s` with pending write `pen` and no protection.
    pub fn new(s: usize, pen: Option<WriteDescriptor>) -> (d: Self)
        ensures
            d == (Descriptor { size: s, counter: 0, pending: pen }),
    {
        Descriptor { size: s, counter: 0, pending: pen }
    }
}

} // verus!
