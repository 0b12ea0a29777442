//! Addressable storage under a volume.

use vstd::prelude::*;

use crate::bytes::spliced;

verus! {

/// Why a transfer did not happen.
#[derive(Debug)]
pub enum DeviceError<E> {
    /// The range does not lie within the storage.
    OutOfBounds,
    /// The storage itself failed.
    Failed(E),
}

/// A fixed-size store of bytes with random access.
///
/// Implementors say what the store holds (`contents`), what of it would
/// survive a power cut (`durable`), and whether it ever fails (`reliable`).
pub trait Device: Sized {
    type Error;

    /// The bytes as reads see them.
    spec fn contents(&self) -> Seq<u8>;

    /// The bytes as they would be found after a power cut.
    spec fn durable(&self) -> Seq<u8>;

    /// Transfers within the store never fail.
    spec fn reliable(&self) -> bool;

    /// Read as much of `buf` as the store holds from `offset` on.
    fn read_up_to(&self, offset: u64, buf: &mut [u8]) -> (r: Result<usize, Self::Error>)
        ensures
            final(buf)@.len() == old(buf)@.len(),
            r is Err ==> !self.reliable(),
            r matches Ok(n) ==> n <= old(buf)@.len() && (if offset + old(buf)@.len()
                <= self.contents().len() {
                n == old(buf)@.len()
            } else if offset <= self.contents().len() {
                offset + n == self.contents().len()
            } else {
                n == 0
            }),
            r matches Ok(n) ==> forall|i: int|
                0 <= i < n ==> #[trigger] final(buf)@[i] == self.contents()[offset + i],
    ;

    /// Write all of `buf` at `offset`.
    fn write_all_at(&mut self, offset: u64, buf: &[u8]) -> (r: Result<(), DeviceError<Self::Error>>)
        ensures
            final(self).reliable() == old(self).reliable(),
            final(self).contents().len() == old(self).contents().len(),
            match r {
                Ok(_) => {
                    &&& offset + buf@.len() <= old(self).contents().len()
                    &&& final(self).contents() == spliced(
                        old(self).contents(),
                        offset as int,
                        buf@,
                    )
                },
                Err(DeviceError::OutOfBounds) => {
                    &&& offset + buf@.len() > old(self).contents().len()
                    &&& final(self).contents() == old(self).contents()
                },
                Err(DeviceError::Failed(_)) => !old(self).reliable(),
            },
    ;

    /// Make everything written so far durable.
    fn flush(&mut self) -> (r: Result<(), Self::Error>)
        ensures
            final(self).reliable() == old(self).reliable(),
            final(self).contents() == old(self).contents(),
            r is Err ==> !old(self).reliable(),
            r is Ok ==> final(self).durable() == final(self).contents(),
    ;
}

/// Fill all of `buf` from `offset`. Nothing asked for is always granted.
pub fn read_exact_at<D: Device>(dev: &D, offset: u64, buf: &mut [u8]) -> (r: Result<
    (),
    DeviceError<D::Error>,
>)
    ensures
        final(buf)@.len() == old(buf)@.len(),
        match r {
            Ok(_) => old(buf)@.len() > 0 ==> {
                &&& offset + old(buf)@.len() <= dev.contents().len()
                &&& final(buf)@ == dev.contents().subrange(
                    offset as int,
                    offset + old(buf)@.len(),
                )
            },
            Err(DeviceError::OutOfBounds) => {
                &&& old(buf)@.len() > 0
                &&& offset + old(buf)@.len() > dev.contents().len()
            },
            Err(DeviceError::Failed(_)) => !dev.reliable(),
        },
{
    let want: usize = buf.len();
    match dev.read_up_to(offset, buf) {
        Err(e) => Err(DeviceError::Failed(e)),
        Ok(n) => {
            if n < want {
                Err(DeviceError::OutOfBounds)
            } else {
                proof {
                    if want > 0 {
                        assert(buf@ =~= dev.contents().subrange(offset as int, offset + want));
                    }
                }
                Ok(())
            }
        },
    }
}

/// A block of memory as a device. It never fails within its bounds.
#[derive(Debug)]
pub struct MemBlockDevice {
    bytes: Vec<u8>,
}

/// The error type of [`MemBlockDevice`]; memory never reports one.
#[derive(Debug)]
pub struct MemFault;

impl MemBlockDevice {
    pub closed spec fn view(&self) -> Seq<u8> {
        self.bytes@
    }

    pub fn new(bytes: Vec<u8>) -> (r: Self)
        ensures
            r.contents() == bytes@,
    {
        MemBlockDevice { bytes }
    }

    pub fn from_slice(bytes: &[u8]) -> (r: Self)
        ensures
            r.contents() == bytes@,
    {
        MemBlockDevice { bytes: crate::bytes::sub_vec(bytes, 0, bytes.len()) }
    }

    /// The bytes it holds.
    pub fn bytes(&self) -> (r: &[u8])
        ensures
            r@ == self.contents(),
    {
        self.bytes.as_slice()
    }

    pub fn into_inner(self) -> (r: Vec<u8>)
        ensures
            r@ == self.contents(),
    {
        self.bytes
    }
}

impl Device for MemBlockDevice {
    type Error = MemFault;

    open spec fn contents(&self) -> Seq<u8> {
        self.view()
    }

    open spec fn durable(&self) -> Seq<u8> {
        self.view()
    }

    open spec fn reliable(&self) -> bool {
        true
    }

    fn read_up_to(&self, offset: u64, buf: &mut [u8]) -> (r: Result<usize, MemFault>) {
        let len: usize = self.bytes.len();
        if offset > len as u64 {
            return Ok(0);
        }
        let from: usize = offset as usize;
        let room: usize = len - from;
        let want: usize = buf.len();
        let n: usize = if want <= room {
            want
        } else {
            room
        };
        let mut i: usize = 0;
        while i < n
            invariant
                i <= n,
                n <= want,
                want == buf@.len(),
                want == old(buf)@.len(),
                len == self.bytes@.len(),
                from + n <= len,
                forall|k: int| 0 <= k < i ==> buf@[k] == self.bytes@[from + k],
            decreases n - i,
        {
            buf[i] = self.bytes[from + i];
            i += 1;
        }
        Ok(n)
    }

    fn write_all_at(&mut self, offset: u64, buf: &[u8]) -> (r: Result<(), DeviceError<MemFault>>) {
        let len: usize = self.bytes.len();
        if offset > len as u64 || buf.len() > len - offset as usize {
            return Err(DeviceError::OutOfBounds);
        }
        let at: usize = offset as usize;
        let n: usize = buf.len();
        let mut i: usize = 0;
        while i < n
            invariant
                i <= n,
                n == buf@.len(),
                len == self.bytes@.len(),
                at + n <= len,
                self.bytes@ =~= spliced(old(self).bytes@, at as int, buf@.subrange(0, i as int)),
            decreases n - i,
        {
            self.bytes.set(at + i, buf[i]);
            i += 1;
        }
        assert(buf@.subrange(0, n as int) =~= buf@);
        Ok(())
    }

    fn flush(&mut self) -> (r: Result<(), MemFault>) {
        Ok(())
    }
}

} // verus!
