//! Viewing a pointer under another pointee type, guarded by a layout check.
//!
//! A pointer is held here as its address together with the static type of
//! what it points to. Reinterpreting keeps the address and changes only the
//! static type, and is permitted only between types of one size and one
//! alignment.

use core::marker::PhantomData;
use vstd::layout::{align_of, size_of};
use vstd::prelude::*;

verus! {

/// The address held by a read-only pointer to a `T`.
pub struct ConstPtr<T> {
    addr: usize,
    pointee: PhantomData<T>,
}

/// The address held by a mutable pointer to a `T`.
pub struct MutPtr<T> {
    addr: usize,
    pointee: PhantomData<T>,
}

impl<T> View for ConstPtr<T> {
    type V = usize;

    closed spec fn view(&self) -> usize {
        self.addr
    }
}

impl<T> View for MutPtr<T> {
    type V = usize;

    closed spec fn view(&self) -> usize {
        self.addr
    }
}

/// `T` and `U` have the same size and the same alignment.
pub open spec fn same_layout<T, U>() -> bool {
    &&& size_of::<T>() == size_of::<U>()
    &&& align_of::<T>() == align_of::<U>()
}

/// Decides whether `T` and `U` have the same size and the same alignment.
pub fn layouts_match<T, U>() -> (b: bool)
    ensures
        b == same_layout::<T, U>(),
{
    core::mem::size_of::<T>() == core::mem::size_of::<U>() && core::mem::align_of::<T>()
        == core::mem::align_of::<U>()
}

/// Views a read-only pointer to a `T` as a read-only pointer to a `U` of the
/// same layout. The address is unchanged.
pub fn same_ptr<T, U>(t: ConstPtr<T>) -> (u: ConstPtr<U>)
    requires
        same_layout::<T, U>(),
    ensures
        u@ == t@,
{
    ConstPtr { addr: t.addr, pointee: PhantomData }
}

/// Views a mutable pointer to a `T` as a mutable pointer to a `U` of the
/// same layout. The address is unchanged.
pub fn same_ptr_mut<T, U>(t: MutPtr<T>) -> (u: MutPtr<U>)
    requires
        same_layout::<T, U>(),
    ensures
        u@ == t@,
{
    MutPtr { addr: t.addr, pointee: PhantomData }
}

impl<T> ConstPtr<T> {
    /// The pointer to a `T` at address `addr`.
    pub fn from_addr(addr: usize) -> (p: Self)
        ensures
            p@ == addr,
    {
        ConstPtr { addr, pointee: PhantomData }
    }

    /// The address that the pointer holds.
    pub fn addr(&self) -> (a: usize)
        ensures
            a == self@,
    {
        self.addr
    }
}

impl<T> MutPtr<T> {
    /// The pointer to a `T` at address `addr`.
    pub fn from_addr(addr: usize) -> (p: Self)
        ensures
            p@ == addr,
    {
        MutPtr { addr, pointee: PhantomData }
    }

    /// The address that the pointer holds.
    pub fn addr(&self) -> (a: usize)
        ensures
            a == self@,
    {
        self.addr
    }
}

} // verus!
