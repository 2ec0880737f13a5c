//! Node indices: the integer types that can number the allocator's nodes.
use vstd::prelude::*;

verus! {

/// Determines the number of allocations that the allocator supports.
///
/// By default the allocator uses `u32`, which allows for `u32::MAX - 1`
/// allocations. `u16` makes the allocator use less memory but limits the
/// number of allocations within one allocator to at most 65,534.
pub trait NodeIndex: Copy + Sized {
    /// The number this index stands for.
    spec fn index(self) -> nat;

    /// The number of valid indices, consecutive from 0; it also numbers the
    /// invalid index.
    spec fn num_valid_spec() -> nat;

    /// An invalid representation in its type, used as the `None` of
    /// `NodeIndexOption`.
    const INVALID: Self;

    /// The number of indexes, consecutive starting from 0, that are valid
    /// representations.
    const NUM_VALID: u32;

    /// Facts on the constants and on the numbering.
    proof fn lemma_index(a: Self, b: Self)
        ensures
            a.index() <= Self::num_valid_spec(),
            3 <= Self::num_valid_spec() == Self::NUM_VALID,
            Self::INVALID.index() == Self::num_valid_spec(),
            a.index() == b.index() ==> a == b,
    ;

    /// Converts from an unsigned 32-bit integer to an instance of this type.
    fn from_u32(val: u32) -> (r: Self)
        requires
            val < Self::num_valid_spec(),
        ensures
            r.index() == val,
    ;

    /// Converts this type to an unsigned machine word.
    fn to_usize(self) -> (r: usize)
        ensures
            r == self.index(),
    ;
}

impl NodeIndex for u32 {
    open spec fn index(self) -> nat {
        self as nat
    }

    open spec fn num_valid_spec() -> nat {
        u32::MAX as nat
    }

    const INVALID: u32 = u32::MAX;

    const NUM_VALID: u32 = u32::MAX;

    proof fn lemma_index(a: Self, b: Self) {
    }

    fn from_u32(val: u32) -> (r: Self) {
        val
    }

    fn to_usize(self) -> (r: usize) {
        self as usize
    }
}

impl NodeIndex for u16 {
    open spec fn index(self) -> nat {
        self as nat
    }

    open spec fn num_valid_spec() -> nat {
        u16::MAX as nat
    }

    const INVALID: u16 = u16::MAX;

    const NUM_VALID: u32 = 65535;

    proof fn lemma_index(a: Self, b: Self) {
    }

    fn from_u32(val: u32) -> (r: Self) {
        val as u16
    }

    fn to_usize(self) -> (r: usize) {
        self as usize
    }
}


/// The version of a node index that never holds its type's maximum.
pub trait NodeIndexNonMax: Copy + Sized {
    /// The number this index stands for.
    spec fn value(self) -> nat;

    /// The bound on the values (the type's maximum, which is excluded).
    spec fn limit() -> nat;

    /// Converts from an unsigned 32-bit integer, which must be below the
    /// limit, to an instance of this type.
    fn from_u32(val: u32) -> (r: Self)
        requires
            val < Self::limit(),
        ensures
            r.value() == val,
    ;

    /// Converts this type to an unsigned machine word.
    fn to_usize(self) -> (r: usize)
        ensures
            r == self.value(),
    ;
}

/// An optional node index, with `NodeIndex::INVALID` standing for `None`.
#[derive(Clone, Copy)]
pub struct NodeIndexOption<NI: NodeIndex>(pub NI);

impl<NI: NodeIndex> View for NodeIndexOption<NI> {
    type V = Option<nat>;

    open spec fn view(&self) -> Option<nat> {
        if self.0.index() == NI::num_valid_spec() {
            None
        } else {
            Some(self.0.index())
        }
    }
}

impl<NI: NodeIndex> Default for NodeIndexOption<NI> {
    /// No index.
    fn default() -> (r: Self)
        ensures
            r@ == None::<nat>,
    {
        Self::none()
    }
}

/// The optional index that stands for `o`.
pub open spec fn index_option<NI: NodeIndex>(o: Option<NI>) -> Option<nat> {
    match o {
        Some(i) => Some(i.index()),
        None => None,
    }
}

impl<NI: NodeIndex> NodeIndexOption<NI> {
    /// No index.
    pub fn none() -> (r: Self)
        ensures
            r@ == None::<nat>,
    {
        proof {
            NI::lemma_index(NI::INVALID, NI::INVALID);
        }
        NodeIndexOption(NI::INVALID)
    }

    /// The given index (which reads as no index when it is the invalid one).
    pub fn some(inner: NI) -> (r: Self)
        ensures
            r.0 == inner,
            inner.index() < NI::num_valid_spec() ==> r@ == Some(inner.index()),
    {
        NodeIndexOption(inner)
    }

    /// The index, if there is one.
    pub fn to_option(self) -> (r: Option<NI>)
        ensures
            index_option(r) == self@,
            r matches Some(i) ==> i == self.0,
    {
        proof {
            NI::lemma_index(self.0, NI::INVALID);
        }
        if self.0.to_usize() == NI::INVALID.to_usize() {
            None
        } else {
            Some(self.0)
        }
    }

    /// Whether there is no index.
    pub fn is_none(self) -> (r: bool)
        ensures
            r == (self@ is None),
    {
        proof {
            NI::lemma_index(self.0, NI::INVALID);
        }
        self.0.to_usize() == NI::INVALID.to_usize()
    }

    /// The index; there must be one.
    pub fn unwrap(self) -> (r: NI)
        requires
            self@ is Some,
        ensures
            r == self.0,
            Some(r.index()) == self@,
    {
        self.0
    }
}

} // verus!
