//! The arena allocator and arena-backed vector that the registry keeps its
//! table in, with what the registry relies on of them.

use vstd::prelude::*;

use crate::registry::RegistryCell;

verus! {

/// The arena allocator `bumpalo::Bump`.
#[verifier::external_type_specification]
#[verifier::external_body]
pub struct ExBump<const MIN_ALIGN: usize>(bumpalo::Bump<MIN_ALIGN>);

/// The arena-backed vector `bumpalo::collections::Vec`.
#[verifier::external_type_specification]
#[verifier::external_body]
#[verifier::reject_recursive_types(T)]
pub struct ExBumpVec<'bump, T>(bumpalo::collections::Vec<'bump, T>);

/// The cells an arena-backed vector of registry cells holds, in order.
pub uninterp spec fn bump_cells(v: bumpalo::collections::Vec<'_, RegistryCell>) -> Seq<RegistryCell>;

/// The capacity an arena-backed vector of registry cells was made with: it
/// holds that many cells without growing.
pub uninterp spec fn bump_reserved(v: bumpalo::collections::Vec<'_, RegistryCell>) -> nat;

/// Calls `bumpalo::collections::Vec::with_capacity_in`: an empty vector in
/// `bump` made with room for `capacity` cells. Its source panics when
/// the byte size of that room overflows `isize`, which `requires` excludes;
/// it calls `handle_alloc_error` when the arena cannot get the memory, which
/// no clause excludes.
#[verifier::external_body]
pub(crate) fn bump_vec_with_capacity_in<'bump>(capacity: usize, bump: &'bump bumpalo::Bump) -> (v:
    bumpalo::collections::Vec<'bump, RegistryCell>)
    requires
        capacity * vstd::layout::size_of::<RegistryCell>() <= isize::MAX,
    ensures
        bump_cells(v) == Seq::<RegistryCell>::empty(),
        bump_reserved(v) == capacity,
{
    bumpalo::collections::Vec::with_capacity_in(capacity, bump)
}

/// Calls `bumpalo::collections::Vec::push`: appends `cell`. Below the
/// capacity the vector was made with, which `requires` asks for, the source
/// writes in place and does not grow the vector.
#[verifier::external_body]
pub(crate) fn bump_vec_push(v: &mut bumpalo::collections::Vec<'_, RegistryCell>, cell: RegistryCell)
    requires
        bump_cells(*old(v)).len() < bump_reserved(*old(v)),
    ensures
        bump_cells(*final(v)) == bump_cells(*old(v)).push(cell),
        bump_reserved(*final(v)) == bump_reserved(*old(v)),
{
    v.push(cell);
}

/// Calls `bumpalo::collections::Vec::is_empty`: whether the vector holds
/// no cell.
#[verifier::external_body]
pub(crate) fn bump_vec_is_empty(v: &bumpalo::collections::Vec<'_, RegistryCell>) -> (b: bool)
    ensures
        b == (bump_cells(*v).len() == 0),
{
    v.is_empty()
}

/// Calls `bumpalo::collections::Vec::deref_mut`: the cells as a mutable
/// slice; what is written through the slice is what the vector holds
/// afterwards.
#[verifier::external_body]
pub(crate) fn bump_vec_as_mut_slice<'a, 'bump>(v: &'a mut bumpalo::collections::Vec<'bump, RegistryCell>) -> (s:
    &'a mut [RegistryCell])
    ensures
        s@ == bump_cells(*old(v)),
        bump_cells(*final(v)) == final(s)@,
        bump_reserved(*final(v)) == bump_reserved(*old(v)),
{
    &mut *v
}

} // verus!
