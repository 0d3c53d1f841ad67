//! The arena that scope strings are allocated in: `bumpalo::Bump`.
use vstd::prelude::*;

verus! {

/// `bumpalo::Bump`, an arena whose allocations live as long as the arena.
/// Its contents are opaque here: it is only handed to [`alloc_str`].
#[verifier::external_type_specification]
#[verifier::external_body]
pub struct ExBump<const MIN_ALIGN: usize>(bumpalo::Bump<MIN_ALIGN>);

/// Copies `s` into the arena with `bumpalo::Bump::alloc_str` and returns the
/// copy, borrowed for as long as the arena lives. The contract claims that the
/// copy holds the same characters as `s`. Not stated: `alloc_str` panics when
/// the arena cannot reserve memory, which no precondition here can rule out.
#[verifier::external_body]
pub(crate) fn alloc_str<'a>(allocator: &'a bumpalo::Bump, s: &str) -> (r: &'a str)
    ensures
        r@ == s@,
{
    allocator.alloc_str(s)
}

} // verus!
