//! The byte-addressed storage interface the tables are written to, and an
//! in-memory implementation of it.
use std::collections::BTreeMap;
use vstd::prelude::*;

verus! {

broadcast use vstd::laws_cmp::group_laws_cmp;

/// Errors that the engine itself raises against a storage.
#[derive(Debug, PartialEq, Eq, Structural, Clone, Copy)]
pub enum StorageError {
    Io,
    Corruption,
    Full,
    NotFound,
}

impl StorageError {
    pub fn corruption() -> (e: Self)
        ensures
            e == StorageError::Corruption,
    {
        StorageError::Corruption
    }
}

#[verifier::external_type_specification]
#[verifier::external_body]
pub struct ExIoError(std::io::Error);

/// The kinds of `std::io::Error` that stand for the engine's errors.
#[derive(Debug, PartialEq, Eq, Structural, Clone, Copy)]
pub enum IoErrorKind {
    Other,
    InvalidData,
    StorageFull,
    NotFound,
}

/// The `std::io::Error` that `std::io::Error::from` builds from an error
/// kind.
pub uninterp spec fn io_error_of_kind(kind: IoErrorKind) -> std::io::Error;

/// Calls `std::io::Error::from` on the `std::io::ErrorKind` that `kind`
/// names; the contract claims only that the error depends on the kind
/// alone.
#[verifier::external_body]
fn io_error(kind: IoErrorKind) -> (e: std::io::Error)
    ensures
        e == io_error_of_kind(kind),
{
    let k = match kind {
        IoErrorKind::Other => std::io::ErrorKind::Other,
        IoErrorKind::InvalidData => std::io::ErrorKind::InvalidData,
        IoErrorKind::StorageFull => std::io::ErrorKind::StorageFull,
        IoErrorKind::NotFound => std::io::ErrorKind::NotFound,
    };
    std::io::Error::from(k)
}

/// The I/O error kind that stands for a storage error.
pub open spec fn io_kind_of(err: StorageError) -> IoErrorKind {
    match err {
        StorageError::Io => IoErrorKind::Other,
        StorageError::Corruption => IoErrorKind::InvalidData,
        StorageError::Full => IoErrorKind::StorageFull,
        StorageError::NotFound => IoErrorKind::NotFound,
    }
}

impl From<StorageError> for std::io::Error {
    fn from(err: StorageError) -> (e: std::io::Error) {
        let kind = match err {
            StorageError::Io => IoErrorKind::Other,
            StorageError::Corruption => IoErrorKind::InvalidData,
            StorageError::Full => IoErrorKind::StorageFull,
            StorageError::NotFound => IoErrorKind::NotFound,
        };
        io_error(kind)
    }
}

impl vstd::std_specs::convert::FromSpecImpl<StorageError> for std::io::Error {
    open spec fn obeys_from_spec() -> bool {
        true
    }

    open spec fn from_spec(err: StorageError) -> std::io::Error {
        io_error_of_kind(io_kind_of(err))
    }
}

/// A byte-addressed storage device.
///
/// Its contents are modelled as a byte for every address, zero where
/// nothing has been written.  A write changes exactly the addresses it
/// covers; a read leaves the contents as they are.
pub trait Storage: Sized {
    type Error: core::fmt::Debug + 'static + From<StorageError>;

    /// The byte held at address `addr`.
    spec fn byte_at(&self, addr: int) -> u8;

    /// Reads of ranges that end at or below this address succeed.
    spec fn readable_end(&self) -> int;

    /// Writes of ranges that end at or below this address succeed.
    spec fn writable_end(&self) -> int;

    fn write_at(&mut self, offset: u64, data: &[u8]) -> (r: Result<(), Self::Error>)
        requires
            offset + data@.len() <= u64::MAX + 1,
        ensures
            forall|a: int|
                !(offset <= a < offset + data@.len()) ==> #[trigger] final(self).byte_at(a)
                    == old(self).byte_at(a),
            final(self).readable_end() >= old(self).readable_end(),
            final(self).writable_end() >= old(self).writable_end(),
            offset + data@.len() <= old(self).writable_end() ==> r is Ok,
            r is Ok ==> forall|i: int|
                0 <= i < data@.len() ==> #[trigger] final(self).byte_at(offset + i) == data@[i],
            r is Ok ==> final(self).readable_end() >= offset + data@.len(),
    ;

    fn read_at(&mut self, offset: u64, data: &mut [u8]) -> (r: Result<(), Self::Error>)
        requires
            offset + old(data)@.len() <= u64::MAX + 1,
        ensures
            final(data)@.len() == old(data)@.len(),
            forall|a: int| #[trigger] final(self).byte_at(a) == old(self).byte_at(a),
            final(self).readable_end() == old(self).readable_end(),
            final(self).writable_end() == old(self).writable_end(),
            offset + old(data)@.len() <= old(self).readable_end() ==> r is Ok,
            r is Ok ==> forall|i: int|
                0 <= i < old(data)@.len() ==> #[trigger] final(data)@[i] == old(self).byte_at(
                    offset + i,
                ),
    ;

    fn sync(&mut self) -> (r: Result<(), Self::Error>)
        ensures
            forall|a: int| #[trigger] final(self).byte_at(a) == old(self).byte_at(a),
            final(self).readable_end() == old(self).readable_end(),
            final(self).writable_end() == old(self).writable_end(),
    ;

    fn capacity(&self) -> u64;
}

/// The bytes `s.byte_at(offset)`, ..., `s.byte_at(offset + len - 1)`.
pub open spec fn stored_bytes<S: Storage>(s: &S, offset: int, len: nat) -> Seq<u8> {
    Seq::new(len, |i: int| s.byte_at(offset + i))
}

/// Two storages that hold the same bytes store the same ranges.
pub proof fn lemma_stored_bytes_same<S: Storage>(s1: &S, s2: &S, offset: int, len: nat)
    requires
        forall|a: int| #[trigger] s1.byte_at(a) == s2.byte_at(a),
    ensures
        stored_bytes(s1, offset, len) == stored_bytes(s2, offset, len),
{
    assert(stored_bytes(s1, offset, len) =~= stored_bytes(s2, offset, len));
}

/// A storage held in memory, one map entry per written byte.
pub struct InMemoryStorage {
    data: BTreeMap<u64, u8>,
    capacity: u64,
}

impl InMemoryStorage {
    pub closed spec fn spec_capacity(&self) -> u64 {
        self.capacity
    }

    pub fn new() -> (s: Self)
        ensures
            forall|a: int| #[trigger] s.byte_at(a) == 0,
            s.writable_end() == u64::MAX + 1,
            s.readable_end() == u64::MAX + 1,
            s.spec_capacity() == 1024 * 1024 * 100,
    {
        InMemoryStorage { data: BTreeMap::new(), capacity: 1024 * 1024 * 100 }
    }

    pub fn with_capacity(capacity: u64) -> (s: Self)
        ensures
            forall|a: int| #[trigger] s.byte_at(a) == 0,
            s.writable_end() == u64::MAX + 1,
            s.readable_end() == u64::MAX + 1,
            s.spec_capacity() == capacity,
    {
        InMemoryStorage { data: BTreeMap::new(), capacity }
    }
}

impl Storage for InMemoryStorage {
    type Error = std::io::Error;

    closed spec fn byte_at(&self, addr: int) -> u8 {
        if 0 <= addr <= u64::MAX && self.data@.contains_key(addr as u64) {
            self.data@[addr as u64]
        } else {
            0
        }
    }

    closed spec fn readable_end(&self) -> int {
        u64::MAX + 1
    }

    closed spec fn writable_end(&self) -> int {
        u64::MAX + 1
    }

    fn write_at(&mut self, offset: u64, data: &[u8]) -> (r: Result<(), std::io::Error>)
        ensures
            r is Ok,
    {
        let mut i: usize = 0;
        while i < data.len()
            invariant
                0 <= i <= data@.len(),
                offset + data@.len() <= u64::MAX + 1,
                forall|a: int|
                    !(offset <= a < offset + i) ==> #[trigger] self.byte_at(a) == old(
                        self,
                    ).byte_at(a),
                forall|j: int| 0 <= j < i ==> #[trigger] self.byte_at(offset + j) == data@[j],
            decreases data@.len() - i,
        {
            let addr: u64 = offset + i as u64;
            let ghost prev = *self;
            self.data.insert(addr, data[i]);
            assert(self.data@ == prev.data@.insert(addr, data@[i as int]));
            assert forall|a: int| a != offset + i implies #[trigger] self.byte_at(a)
                == prev.byte_at(a) by {
                if 0 <= a <= u64::MAX {
                    assert(a as u64 != addr);
                }
            }
            assert(self.byte_at(offset + i) == data@[i as int]);
            i = i + 1;
        }
        Ok(())
    }

    fn read_at(&mut self, offset: u64, data: &mut [u8]) -> (r: Result<(), std::io::Error>)
        ensures
            r is Ok,
    {
        let mut i: usize = 0;
        while i < data.len()
            invariant
                0 <= i <= data@.len(),
                data@.len() == old(data)@.len(),
                offset + data@.len() <= u64::MAX + 1,
                forall|j: int| 0 <= j < i ==> data@[j] == self.byte_at(offset + j),
            decreases data@.len() - i,
        {
            let addr: u64 = offset + i as u64;
            let b: u8 = match self.data.get(&addr) {
                Some(v) => *v,
                None => 0,
            };
            data[i] = b;
            i = i + 1;
        }
        Ok(())
    }

    fn sync(&mut self) -> (r: Result<(), std::io::Error>)
        ensures
            r is Ok,
    {
        Ok(())
    }

    fn capacity(&self) -> (c: u64)
        ensures
            c == self.spec_capacity(),
    {
        self.capacity
    }
}

} // verus!
