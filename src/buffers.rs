use vstd::prelude::*;

verus! {

/// Number of bytes that the elements of `val` occupy in memory, as the
/// graphics API's signed size type.
pub fn byte_size_of_array<T>(val: &[T]) -> (r: isize)
    requires
        val@.len() * vstd::layout::size_of::<T>() <= isize::MAX,
    ensures
        r as int == val@.len() * vstd::layout::size_of::<T>(),
{
    let n: usize = val.len();
    let s: usize = core::mem::size_of::<T>();
    (n * s) as isize
}

/// Size in bytes of one value of type `T`, as the graphics API's integer
/// type.
pub fn size_of<T>() -> (r: i32)
    requires
        vstd::layout::size_of::<T>() <= i32::MAX,
    ensures
        r as int == vstd::layout::size_of::<T>(),
{
    core::mem::size_of::<T>() as i32
}

} // verus!
