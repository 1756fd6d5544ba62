//! A storage kept in one growable byte vector, as used from WebAssembly.
use crate::storage::{Storage, StorageError};
use vstd::prelude::*;

verus! {

/// Errors of a vector-backed storage.
#[derive(Debug, PartialEq, Eq, Structural, Clone, Copy)]
pub enum WasmStorageError {
    OutOfBounds,
    Io,
    Corruption,
    Full,
    NotFound,
}

impl From<StorageError> for WasmStorageError {
    fn from(err: StorageError) -> (e: Self) {
        match err {
            StorageError::Io => WasmStorageError::Io,
            StorageError::Corruption => WasmStorageError::Corruption,
            StorageError::Full => WasmStorageError::Full,
            StorageError::NotFound => WasmStorageError::NotFound,
        }
    }
}

impl vstd::std_specs::convert::FromSpecImpl<StorageError> for WasmStorageError {
    open spec fn obeys_from_spec() -> bool {
        true
    }

    open spec fn from_spec(err: StorageError) -> WasmStorageError {
        match err {
            StorageError::Io => WasmStorageError::Io,
            StorageError::Corruption => WasmStorageError::Corruption,
            StorageError::Full => WasmStorageError::Full,
            StorageError::NotFound => WasmStorageError::NotFound,
        }
    }
}

/// The memory after `data` is written at `offset`: grown with zeros to
/// cover the write, with the written range replaced.
pub open spec fn written_memory(mem: Seq<u8>, offset: int, data: Seq<u8>) -> Seq<u8> {
    let end = offset + data.len();
    Seq::new(
        if end > mem.len() {
            end as nat
        } else {
            mem.len()
        },
        |i: int|
            if offset <= i < end {
                data[i - offset]
            } else if i < mem.len() {
                mem[i]
            } else {
                0u8
            },
    )
}

/// A storage held in one byte vector that grows, zero-filled, to cover
/// every write.
pub struct WasmStorage {
    memory: Vec<u8>,
    capacity: u64,
    position: u64,
}

impl WasmStorage {
    /// The stored bytes.
    pub closed spec fn memory(&self) -> Seq<u8> {
        self.memory@
    }

    pub closed spec fn spec_capacity(&self) -> u64 {
        self.capacity
    }

    /// Where the last read or write ended.
    pub closed spec fn position(&self) -> u64 {
        self.position
    }

    pub fn new() -> (s: Self)
        ensures
            s.memory() == Seq::<u8>::empty(),
            forall|a: int| #[trigger] s.byte_at(a) == 0,
            s.readable_end() == 0,
            s.writable_end() == usize::MAX,
            s.spec_capacity() == 1024 * 1024 * 10,
            s.position() == 0,
    {
        WasmStorage { memory: Vec::new(), capacity: 1024 * 1024 * 10, position: 0 }
    }

    pub fn with_capacity(capacity: u64) -> (s: Self)
        ensures
            s.memory() == Seq::<u8>::empty(),
            forall|a: int| #[trigger] s.byte_at(a) == 0,
            s.readable_end() == 0,
            s.writable_end() == usize::MAX,
            s.spec_capacity() == capacity,
            s.position() == 0,
    {
        WasmStorage {
            memory: Vec::with_capacity(#[verifier::truncate] (capacity as usize)),
            capacity,
            position: 0,
        }
    }

    /// The stored bytes.
    pub fn data(&self) -> (d: &[u8])
        ensures
            d@ == self.memory(),
    {
        self.memory.as_slice()
    }
}

impl Storage for WasmStorage {
    type Error = WasmStorageError;

    closed spec fn byte_at(&self, addr: int) -> u8 {
        if 0 <= addr < self.memory@.len() {
            self.memory@[addr]
        } else {
            0
        }
    }

    closed spec fn readable_end(&self) -> int {
        self.memory@.len() as int
    }

    closed spec fn writable_end(&self) -> int {
        usize::MAX as int
    }

    fn write_at(&mut self, offset: u64, data: &[u8]) -> (r: Result<(), WasmStorageError>)
        ensures
            offset + data@.len() <= usize::MAX ==> r is Ok,
            r is Ok ==> final(self).position() == offset + data@.len(),
            r is Ok ==> final(self).memory() == written_memory(
                old(self).memory(),
                offset as int,
                data@,
            ),
            r is Err ==> r == Err::<(), WasmStorageError>(WasmStorageError::OutOfBounds)
                && final(self).memory() == old(self).memory() && final(self).position() == old(
                self,
            ).position(),
    {
        let end64 = match offset.checked_add(data.len() as u64) {
            Some(e) => e,
            None => {
                return Err(WasmStorageError::OutOfBounds);
            },
        };
        if end64 > usize::MAX as u64 {
            return Err(WasmStorageError::OutOfBounds);
        }
        let start = offset as usize;
        let end = end64 as usize;
        if end > self.memory.len() {
            self.memory.resize(end, 0);
        }
        let ghost mem1 = self.memory@;
        proof {
            assert forall|a: int| !(offset <= a < end) implies #[trigger] self.byte_at(a)
                == old(self).byte_at(a) by {
                if 0 <= a < old(self).memory@.len() {
                    assert(mem1.subrange(0, old(self).memory@.len() as int)[a] == mem1[a]);
                }
            }
        }
        let mut i: usize = 0;
        while i < data.len()
            invariant
                0 <= i <= data@.len(),
                start + data@.len() == end,
                end <= self.memory@.len(),
                self.memory@.len() == mem1.len(),
                mem1.len() >= old(self).memory@.len(),
                forall|a: int|
                    0 <= a < mem1.len() && !(start <= a < start + i) ==> self.memory@[a] == mem1[a],
                forall|j: int| 0 <= j < i ==> self.memory@[start + j] == data@[j],
            decreases data@.len() - i,
        {
            self.memory.set(start + i, data[i]);
            i = i + 1;
        }
        self.position = end as u64;
        proof {
            assert forall|a: int| !(offset <= a < offset + data@.len()) implies #[trigger] self.byte_at(a)
                == old(self).byte_at(a) by {
                if 0 <= a < mem1.len() {
                    assert(self.memory@[a] == mem1[a]);
                }
            }
            assert forall|j: int| 0 <= j < data@.len() implies #[trigger] self.byte_at(offset + j)
                == data@[j] by {
                assert(self.memory@[start + j] == data@[j]);
            }
            assert forall|a: int| 0 <= a < mem1.len() implies #[trigger] self.memory@[a]
                == written_memory(old(self).memory@, offset as int, data@)[a] by {
                if start <= a < start + data@.len() {
                    assert(self.memory@[start + (a - start)] == data@[a - start]);
                } else {
                    assert(self.memory@[a] == mem1[a]);
                    if a < old(self).memory@.len() {
                        assert(mem1.subrange(0, old(self).memory@.len() as int)[a] == mem1[a]);
                    }
                }
            }
            assert(self.memory@ =~= written_memory(old(self).memory@, offset as int, data@));
        }
        Ok(())
    }

    fn read_at(&mut self, offset: u64, data: &mut [u8]) -> (r: Result<(), WasmStorageError>)
        ensures
            r is Err ==> r == Err::<(), WasmStorageError>(WasmStorageError::OutOfBounds),
            r is Err <==> offset + old(data)@.len() > old(self).memory().len(),
            r is Ok ==> final(self).position() == offset + old(data)@.len(),
            r is Ok ==> final(data)@ == old(self).memory().subrange(
                offset as int,
                offset + old(data)@.len(),
            ),
            r is Err ==> final(self).position() == old(self).position() && final(data)@ == old(
                data,
            )@,
            final(self).memory() == old(self).memory(),
    {
        let mem_len = self.memory.len();
        let end64 = match offset.checked_add(data.len() as u64) {
            Some(e) => e,
            None => {
                return Err(WasmStorageError::OutOfBounds);
            },
        };
        if end64 > mem_len as u64 {
            return Err(WasmStorageError::OutOfBounds);
        }
        let start = offset as usize;
        let end = end64 as usize;
        let mut i: usize = 0;
        while i < data.len()
            invariant
                0 <= i <= data@.len(),
                data@.len() == old(data)@.len(),
                start + data@.len() == end,
                end <= self.memory@.len(),
                self.memory == old(self).memory,
                forall|j: int| 0 <= j < i ==> data@[j] == self.memory@[start + j],
            decreases data@.len() - i,
        {
            data[i] = self.memory[start + i];
            i = i + 1;
        }
        self.position = end as u64;
        assert(data@ =~= old(self).memory@.subrange(offset as int, offset + old(data)@.len()));
        Ok(())
    }

    fn sync(&mut self) -> (r: Result<(), WasmStorageError>)
        ensures
            r is Ok,
    {
        Ok(())
    }

    fn capacity(&self) -> (c: u64)
        ensures
            c == self.spec_capacity(),
    {
        self.capacity
    }
}

} // verus!
