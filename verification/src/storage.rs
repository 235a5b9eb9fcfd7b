//! Persistence of configuration bytes, with an in-memory backend.
use vstd::prelude::*;

verus! {

/// Backend-independent storage used to persist configuration bytes across
/// reboots.
pub trait Storage {
    type Error;

    /// Loads previously stored bytes into `buf`; returns the number of
    /// bytes written.  An implementation may leave the tail of a longer
    /// `buf` unchanged.
    fn load(&mut self, buf: &mut [u8]) -> Result<usize, Self::Error>;

    /// Persists `data` so that a later `load` can retrieve it.
    fn store(&mut self, data: &[u8]) -> Result<(), Self::Error>;
}

/// Errors returned by [`MockStorage`].
#[derive(Debug, Clone, Copy, PartialEq, Eq)]
pub enum MockStorageError {
    /// The payload exceeded the fixed capacity `N`.
    BufferTooSmall,
}

/// The payload after storing `data` over `payload` in a store of capacity
/// `cap`: `data` when it fits, the old payload otherwise.
pub open spec fn stored_payload(payload: Seq<u8>, data: Seq<u8>, cap: nat) -> Seq<u8> {
    if data.len() <= cap {
        data
    } else {
        payload
    }
}

/// What a load into a buffer of `room` bytes yields: the payload, cut to
/// the buffer.
pub open spec fn loaded_bytes(payload: Seq<u8>, room: nat) -> Seq<u8> {
    if payload.len() <= room {
        payload
    } else {
        payload.take(room as int)
    }
}

/// In-memory [`Storage`] for tests, examples and host-side simulations.
/// `N` is the maximum number of bytes that can be stored.
#[derive(Debug)]
pub struct MockStorage<const N: usize> {
    buf: [u8; N],
    len: usize,
}

impl<const N: usize> View for MockStorage<N> {
    type V = Seq<u8>;

    /// The stored payload.
    closed spec fn view(&self) -> Seq<u8> {
        self.buf@.take(self.len as int)
    }
}

impl<const N: usize> MockStorage<N> {
    #[verifier::type_invariant]
    spec fn well_formed(&self) -> bool {
        self.len <= N
    }

    /// Creates an empty store.
    pub fn new() -> (r: Self)
        ensures
            r@ == Seq::<u8>::empty(),
    {
        let r = MockStorage { buf: [0u8; N], len: 0 };
        assert(r@ =~= Seq::<u8>::empty());
        r
    }

    /// The stored payload.
    pub fn as_slice(&self) -> (r: &[u8])
        ensures
            r@ == self@,
    {
        proof {
            use_type_invariant(self);
        }
        &self.buf.as_slice()[0..self.len]
    }

    /// The capacity `N`.
    pub fn capacity(&self) -> (r: usize)
        ensures
            r == N,
    {
        N
    }

    /// The length of the stored payload, which never exceeds the capacity.
    pub fn len(&self) -> (r: usize)
        ensures
            r == self@.len(),
            r <= N,
    {
        proof {
            use_type_invariant(self);
        }
        self.len
    }

    /// Whether no payload is stored.
    pub fn is_empty(&self) -> (r: bool)
        ensures
            r == (self@.len() == 0),
    {
        proof {
            use_type_invariant(self);
        }
        self.len == 0
    }

    /// Drops the stored payload.
    pub fn clear(&mut self)
        ensures
            final(self)@ == Seq::<u8>::empty(),
    {
        self.len = 0;
        assert(self@ =~= Seq::<u8>::empty());
    }
}

impl<const N: usize> Clone for MockStorage<N> {
    fn clone(&self) -> (r: Self)
        ensures
            r@ == self@,
    {
        proof {
            use_type_invariant(self);
        }
        MockStorage { buf: self.buf, len: self.len }
    }
}

impl<const N: usize> Default for MockStorage<N> {
    fn default() -> (r: Self)
        ensures
            r@ == Seq::<u8>::empty(),
    {
        Self::new()
    }
}

impl<const N: usize> Storage for MockStorage<N> {
    type Error = MockStorageError;

    /// Copies as much of the payload as fits into `buf`; always succeeds.
    fn load(&mut self, buf: &mut [u8]) -> (r: Result<usize, MockStorageError>)
        ensures
            final(self)@ == old(self)@,
            r matches Ok(n) && n == loaded_bytes(old(self)@, old(buf)@.len()).len()
                && final(buf)@ == loaded_bytes(old(self)@, old(buf)@.len()) + old(buf)@.skip(
                n as int,
            ),
    {
        proof {
            use_type_invariant(&*self);
        }
        let len = if self.len < buf.len() {
            self.len
        } else {
            buf.len()
        };
        let mut i: usize = 0;
        while i < len
            invariant
                len <= self.len <= N,
                len <= buf@.len(),
                self.buf@.len() == N,
                buf@.len() == old(buf)@.len(),
                i <= len,
                buf@ == self.buf@.take(i as int) + old(buf)@.skip(i as int),
            decreases len - i,
        {
            buf[i] = self.buf[i];
            i += 1;
            assert(buf@ =~= self.buf@.take(i as int) + old(buf)@.skip(i as int));
        }
        assert(self.buf@.take(len as int) =~= loaded_bytes(self@, buf@.len()));
        Ok(len)
    }

    /// Replaces the payload with `data`, or fails with `BufferTooSmall`,
    /// leaving the payload as it was, when `data` exceeds the capacity.
    fn store(&mut self, data: &[u8]) -> (r: Result<(), MockStorageError>)
        ensures
            final(self)@ == stored_payload(old(self)@, data@, N as nat),
            r is Ok <==> data@.len() <= N,
            r is Err ==> r == Err::<(), MockStorageError>(MockStorageError::BufferTooSmall),
    {
        proof {
            use_type_invariant(&*self);
        }
        if data.len() > N {
            return Err(MockStorageError::BufferTooSmall);
        }
        let mut contents = self.buf;
        let mut i: usize = 0;
        while i < data.len()
            invariant
                data@.len() <= N,
                contents@.len() == N,
                i <= data@.len(),
                forall|j: int| 0 <= j < i ==> contents@[j] == data@[j],
            decreases data@.len() - i,
        {
            contents[i] = data[i];
            i += 1;
        }
        self.buf = contents;
        self.len = data.len();
        assert(self@ =~= data@);
        Ok(())
    }
}

/// A load right after a store that fits gives back the stored bytes,
/// when the load buffer is large enough.
pub proof fn lemma_store_then_load(payload: Seq<u8>, data: Seq<u8>, cap: nat, room: nat)
    requires
        data.len() <= cap,
        data.len() <= room,
    ensures
        loaded_bytes(stored_payload(payload, data, cap), room) == data,
{
}

/// A later store that fits replaces the earlier one entirely.
pub proof fn lemma_store_overwrites(payload: Seq<u8>, first: Seq<u8>, second: Seq<u8>, cap: nat)
    requires
        second.len() <= cap,
    ensures
        stored_payload(stored_payload(payload, first, cap), second, cap) == second,
{
}

} // verus!
