//! A byte buffer that is either a cross-process shared-memory region or
//! a plain in-process allocation.
//!
//! Senders that stay within one process should not pay for an OS
//! shared-memory region, so the buffer exists in two variants chosen at
//! creation time; both hand their bytes out through one view type.

use vstd::prelude::*;

use std::sync::Arc;

use ipc_channel::ipc::IpcSharedMemory;
use vstd::slice::slice_to_vec;

verus! {

/// Declares the cross-process shared-memory region type of the ipc
/// channel library, so that values of it can be stored and passed
/// around; the region's contents are reached only through the trusted
/// functions below.
#[verifier::external_type_specification]
#[verifier::external_body]
pub struct ExIpcSharedMemory(IpcSharedMemory);

/// The bytes a cross-process shared-memory region holds.
pub uninterp spec fn ipc_shared_memory_bytes(m: IpcSharedMemory) -> Seq<u8>;

/// Relies on `IpcSharedMemory::from_bytes`: the new region holds a copy
/// of the given bytes.
#[verifier::external_body]
fn ipc_from_bytes(bytes: &[u8]) -> (r: IpcSharedMemory)
    ensures
        ipc_shared_memory_bytes(r) == bytes@,
{
    IpcSharedMemory::from_bytes(bytes)
}

/// Relies on `IpcSharedMemory::from_byte`: the new region holds
/// `length` copies of `byte`.
#[verifier::external_body]
fn ipc_from_byte(byte: u8, length: usize) -> (r: IpcSharedMemory)
    ensures
        ipc_shared_memory_bytes(r) == Seq::<u8>::new(length as nat, |i: int| byte),
{
    IpcSharedMemory::from_byte(byte, length)
}

/// Relies on `IpcSharedMemory`'s `Deref` to `[u8]`: a borrowed view of
/// the bytes the region holds.
#[verifier::external_body]
fn ipc_as_bytes(m: &IpcSharedMemory) -> (r: &[u8])
    ensures
        r@ == ipc_shared_memory_bytes(*m),
{
    m
}

/// Relies on `IpcSharedMemory`'s `Clone`: the clone maps the same
/// backing region (it duplicates the file descriptor and maps it
/// again), so it holds the same bytes.
pub assume_specification[ <IpcSharedMemory as Clone>::clone ](m: &IpcSharedMemory) -> (r:
    IpcSharedMemory)
    ensures
        ipc_shared_memory_bytes(r) == ipc_shared_memory_bytes(*m),
;

/// The two places the bytes can live.
#[derive(Clone)]
enum GenericSharedMemoryVariant {
    Ipc(IpcSharedMemory),
    Arc(Arc<Vec<u8>>),
}

/// A byte buffer held either in a cross-process shared-memory region
/// (for multiprocess senders) or in a plain reference-counted
/// allocation (cheaper within one process).  A clone shares the bytes.
#[derive(Clone)]
pub struct GenericSharedMemory(GenericSharedMemoryVariant);

/// A borrowed view into a `GenericSharedMemory`'s bytes.
pub enum SharedMemoryView<'a> {
    Ipc(&'a [u8]),
    Arc(&'a [u8]),
}

impl<'a> SharedMemoryView<'a> {
    /// The bytes seen through the view.
    pub open spec fn bytes(self) -> Seq<u8> {
        match self {
            SharedMemoryView::Ipc(b) => b@,
            SharedMemoryView::Arc(b) => b@,
        }
    }

    /// Hands the viewed bytes out as a slice.
    pub fn as_bytes(&self) -> (r: &'a [u8])
        ensures
            r@ == self.bytes(),
    {
        match self {
            SharedMemoryView::Ipc(b) => b,
            SharedMemoryView::Arc(b) => b,
        }
    }
}

impl GenericSharedMemory {
    /// The bytes the buffer holds.
    pub closed spec fn bytes(self) -> Seq<u8> {
        match self.0 {
            GenericSharedMemoryVariant::Ipc(m) => ipc_shared_memory_bytes(m),
            GenericSharedMemoryVariant::Arc(v) => v@,
        }
    }

    /// Whether the bytes live in a cross-process shared-memory region.
    pub closed spec fn is_ipc(self) -> bool {
        self.0 is Ipc
    }

    /// Creates a buffer holding a copy of the given bytes: in a
    /// shared-memory region when `ipc` is set (the multiprocess case),
    /// else in a plain allocation.
    pub fn from_bytes(bytes: &[u8], ipc: bool) -> (r: GenericSharedMemory)
        ensures
            r.bytes() == bytes@,
            r.is_ipc() == ipc,
    {
        if ipc {
            GenericSharedMemory(GenericSharedMemoryVariant::Ipc(ipc_from_bytes(bytes)))
        } else {
            let v = slice_to_vec(bytes);
            GenericSharedMemory(GenericSharedMemoryVariant::Arc(Arc::new(v)))
        }
    }

    /// Creates a buffer holding `length` copies of `byte`: in a
    /// shared-memory region when `ipc` is set, else in a plain
    /// allocation.
    pub fn from_byte(byte: u8, length: usize, ipc: bool) -> (r: GenericSharedMemory)
        ensures
            r.bytes() == Seq::<u8>::new(length as nat, |i: int| byte),
            r.is_ipc() == ipc,
    {
        if ipc {
            GenericSharedMemory(GenericSharedMemoryVariant::Ipc(ipc_from_byte(byte, length)))
        } else {
            let mut v: Vec<u8> = Vec::new();
            let mut i: usize = 0;
            while i < length
                invariant
                    0 <= i <= length,
                    v@.len() == i,
                    forall|j: int| 0 <= j < i ==> v@[j] == byte,
                decreases length - i,
            {
                v.push(byte);
                i += 1;
            }
            proof {
                assert(v@ =~= Seq::<u8>::new(length as nat, |j: int| byte));
            }
            GenericSharedMemory(GenericSharedMemoryVariant::Arc(Arc::new(v)))
        }
    }

    /// Wraps a shared-memory region received from another process, for
    /// instance one a deserializer produced.
    pub fn from_ipc(region: IpcSharedMemory) -> (r: GenericSharedMemory)
        ensures
            r.bytes() == ipc_shared_memory_bytes(region),
            r.is_ipc(),
    {
        GenericSharedMemory(GenericSharedMemoryVariant::Ipc(region))
    }

    /// The underlying shared-memory region, where there is one.  Only
    /// the cross-process variant may travel over a process boundary, so
    /// a sender checks here before handing the buffer to a serializer.
    pub fn as_ipc(&self) -> (r: Option<&IpcSharedMemory>)
        ensures
            r is Some <==> self.is_ipc(),
            r matches Some(m) ==> ipc_shared_memory_bytes(*m) == self.bytes(),
    {
        match &self.0 {
            GenericSharedMemoryVariant::Ipc(m) => Some(m),
            GenericSharedMemoryVariant::Arc(_) => None,
        }
    }

    /// A view of the bytes, whichever variant holds them.
    pub fn view(&self) -> (r: SharedMemoryView<'_>)
        ensures
            r.bytes() == self.bytes(),
            r is Ipc <==> self.is_ipc(),
    {
        match &self.0 {
            GenericSharedMemoryVariant::Ipc(m) => SharedMemoryView::Ipc(ipc_as_bytes(m)),
            GenericSharedMemoryVariant::Arc(v) => SharedMemoryView::Arc(v.as_slice()),
        }
    }
}

} // verus!
