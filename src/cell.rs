//! A cell whose accesses are checked when they are taken: any number of
//! read accesses, or one write access, never both at once.
use vstd::prelude::*;

verus! {

/// Why an access to a `BorrowCell` was refused.
#[derive(Clone, Copy, Debug, PartialEq, Eq, Structural)]
pub enum BorrowError {
    /// A read access is outstanding, so no write access can be taken.
    AlreadyBorrowed,
    /// A write access is outstanding, so no other access can be taken.
    AlreadyMutablyBorrowed,
}

/// A value together with the accesses that are outstanding on it.
pub struct BorrowCell<T> {
    value: T,
    readers: u64,
    writing: bool,
}

impl<T> BorrowCell<T> {
    /// The value held.
    pub closed spec fn content(&self) -> T {
        self.value
    }

    /// How many read accesses are outstanding.
    pub closed spec fn readers(&self) -> nat {
        self.readers as nat
    }

    /// Whether a write access is outstanding.
    pub closed spec fn writing(&self) -> bool {
        self.writing
    }

    /// No access is outstanding.
    pub open spec fn is_idle(&self) -> bool {
        self.readers() == 0 && !self.writing()
    }

    pub fn new(value: T) -> (c: Self)
        ensures
            c.content() == value,
            c.is_idle(),
    {
        BorrowCell { value, readers: 0, writing: false }
    }

    /// Takes the write access. It is refused while any other access is
    /// outstanding, and the cell is then left as it was.
    pub fn borrow_mut(&mut self) -> (r: Result<(), BorrowError>)
        ensures
            final(self).content() == old(self).content(),
            final(self).readers() == old(self).readers(),
            old(self).is_idle() ==> r == Ok::<(), BorrowError>(()) && final(self).writing(),
            old(self).writing() ==> r == Err::<(), BorrowError>(BorrowError::AlreadyMutablyBorrowed)
                && final(self).writing(),
            !old(self).writing() && old(self).readers() > 0 ==> r == Err::<(), BorrowError>(
                BorrowError::AlreadyBorrowed,
            ) && !final(self).writing(),
    {
        if self.writing {
            Err(BorrowError::AlreadyMutablyBorrowed)
        } else if self.readers > 0 {
            Err(BorrowError::AlreadyBorrowed)
        } else {
            self.writing = true;
            Ok(())
        }
    }

    /// Gives the write access back.
    pub fn release_mut(&mut self)
        requires
            old(self).writing(),
        ensures
            final(self).content() == old(self).content(),
            final(self).readers() == old(self).readers(),
            !final(self).writing(),
    {
        self.writing = false;
    }

    /// Takes one more read access. It is refused while the write access is
    /// outstanding, and the cell is then left as it was.
    pub fn borrow(&mut self) -> (r: Result<(), BorrowError>)
        requires
            old(self).readers() < u64::MAX,
        ensures
            final(self).content() == old(self).content(),
            final(self).writing() == old(self).writing(),
            old(self).writing() ==> r == Err::<(), BorrowError>(BorrowError::AlreadyMutablyBorrowed)
                && final(self).readers() == old(self).readers(),
            !old(self).writing() ==> r == Ok::<(), BorrowError>(()) && final(self).readers()
                == old(self).readers() + 1,
    {
        if self.writing {
            Err(BorrowError::AlreadyMutablyBorrowed)
        } else {
            self.readers = self.readers + 1;
            Ok(())
        }
    }

    /// Gives one read access back.
    pub fn release(&mut self)
        requires
            old(self).readers() > 0,
        ensures
            final(self).content() == old(self).content(),
            final(self).writing() == old(self).writing(),
            final(self).readers() == old(self).readers() - 1,
    {
        self.readers = self.readers - 1;
    }

    /// Reads the value under an outstanding access.
    pub fn read(&self) -> (r: &T)
        requires
            self.readers() > 0 || self.writing(),
        ensures
            *r == self.content(),
    {
        &self.value
    }

    /// Takes a read access and gives it back at once: the value, unless the
    /// write access is outstanding.
    pub fn try_read(&self) -> (r: Result<&T, BorrowError>)
        ensures
            !self.writing() ==> r == Ok::<&T, BorrowError>(&self.content()),
            self.writing() ==> r == Err::<&T, BorrowError>(BorrowError::AlreadyMutablyBorrowed),
    {
        if self.writing {
            Err(BorrowError::AlreadyMutablyBorrowed)
        } else {
            Ok(&self.value)
        }
    }

    /// Replaces the value under the outstanding write access.
    pub fn write(&mut self, value: T)
        requires
            old(self).writing(),
        ensures
            final(self).content() == value,
            final(self).readers() == old(self).readers(),
            final(self).writing(),
    {
        self.value = value;
    }

    /// Puts `value` in under the outstanding write access and hands back the
    /// value that was there.
    pub fn replace(&mut self, value: T) -> (r: T)
        requires
            old(self).writing(),
        ensures
            r == old(self).content(),
            final(self).content() == value,
            final(self).readers() == old(self).readers(),
            final(self).writing(),
    {
        let mut r = value;
        core::mem::swap(&mut self.value, &mut r);
        r
    }
}

} // verus!
