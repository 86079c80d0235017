use vstd::prelude::*;

verus! {

/// A value together with the number of bytes it occupies on the wire.
///
/// After a read, `byte_count` is the number of bytes that were consumed.
/// For a write, it is the minimum number of bytes to emit, so that reading and
/// writing the same `Leb128<T>` uses the same number of bytes.
#[derive(Debug, PartialEq)]
pub struct Leb128<T> {
    pub value: T,
    pub byte_count: usize,
}

impl<T> Leb128<T> {
    /// Tags a value with the number of bytes it occupies (or must occupy).
    pub fn new(value: T, byte_count: usize) -> (r: Leb128<T>)
        ensures
            r.value == value,
            r.byte_count == byte_count,
    {
        Leb128 { value, byte_count }
    }

    /// Replaces the value, keeping the byte count of `self`.
    ///
    /// Writing the result still emits at least `self.byte_count` bytes, which
    /// lets a new value take the place of an old one without changing the
    /// length of the surrounding stream.
    pub fn map<U>(&self, new_value: U) -> (r: Leb128<U>)
        ensures
            r.value == new_value,
            r.byte_count == self.byte_count,
    {
        Leb128 { value: new_value, byte_count: self.byte_count }
    }

    /// The tagged value.
    pub fn get(&self) -> (r: &T)
        ensures
            *r == self.value,
    {
        &self.value
    }
}

impl<T> core::ops::Deref for Leb128<T> {
    type Target = T;

    fn deref(&self) -> (r: &T)
        ensures
            *r == self.value,
    {
        &self.value
    }
}

} // verus!
