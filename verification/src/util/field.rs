//! Field projections.
//!
//! Intrusive collections keep their metadata in a member field of the elements
//! they manage. The [`Field`] trait describes such a member field, so that a
//! collection can be generic over the field it uses.

use vstd::prelude::*;

verus! {

/// Authoritative information about a field of another type.
///
/// A field behaves as a lens into its base: what was stored in it is read back,
/// and storing to it changes nothing else of the base.
pub trait Field: Sized {
    /// Base containing type this field exists in.
    type Base;

    /// Type of the field.
    type Type;

    /// The value of the field in a base value.
    spec fn field_of(base: Self::Base) -> Self::Type;

    /// The base value with the field replaced.
    spec fn with_field(base: Self::Base, v: Self::Type) -> Self::Base;

    /// A field yields what was stored in it.
    proof fn lemma_get_put(base: Self::Base, v: Self::Type)
        ensures
            Self::field_of(Self::with_field(base, v)) == v,
    ;

    /// Storing what is already there changes nothing.
    proof fn lemma_put_get(base: Self::Base)
        ensures
            Self::with_field(base, Self::field_of(base)) == base,
    ;

    /// The last store to a field wins.
    proof fn lemma_put_put(base: Self::Base, v: Self::Type, w: Self::Type)
        ensures
            Self::with_field(Self::with_field(base, v), w) == Self::with_field(base, w),
    ;

    /// Borrow the field of a base value.
    fn get(base: &Self::Base) -> (r: &Self::Type)
        ensures
            *r == Self::field_of(*base),
    ;

    /// Replace the field of a base value.
    fn set(base: &mut Self::Base, v: Self::Type)
        ensures
            *final(base) == Self::with_field(*old(base), v),
    ;
}

} // verus!
