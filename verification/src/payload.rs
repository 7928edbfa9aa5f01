use vstd::prelude::*;
use crate::addr::SockAddr;

verus! {

/// Declares bytes::Bytes, the reference-counted byte container messages
/// carry, so it can stand in signatures and fields; Verus sees nothing
/// inside it, and `bytes_view` names its content.
#[verifier::external_type_specification]
#[verifier::external_body]
pub struct ExBytes(bytes::Bytes);

/// The byte sequence a `bytes::Bytes` value holds.
pub uninterp spec fn bytes_view(b: bytes::Bytes) -> Seq<u8>;

/// Relies on bytes::Bytes::copy_from_slice: the result holds a copy of the slice.
#[verifier::external_body]
pub fn bytes_copy_from_slice(data: &[u8]) -> (r: bytes::Bytes)
    ensures
        bytes_view(r) == data@,
{
    bytes::Bytes::copy_from_slice(data)
}

/// Relies on the slice view of bytes::Bytes (its Deref impl): the slice is
/// exactly the bytes the value holds.
#[verifier::external_body]
pub fn bytes_as_slice(b: &bytes::Bytes) -> (r: &[u8])
    ensures
        r@ == bytes_view(*b),
{
    b.as_ref()
}

/// A message in flight or parked in a mailbox: a tag chosen by the
/// application, the sender's address, and an opaque payload.
pub struct Message {
    pub tag: u64,
    pub from: SockAddr,
    pub data: bytes::Bytes,
}

/// The mathematical content of a `Message`.
pub struct MessageView {
    pub tag: u64,
    pub from: SockAddr,
    pub data: Seq<u8>,
}

impl View for Message {
    type V = MessageView;

    open spec fn view(&self) -> MessageView {
        MessageView { tag: self.tag, from: self.from, data: bytes_view(self.data) }
    }
}

impl Message {
    /// Copies the payload into `buf`, truncating silently to `buf`'s length,
    /// and reports how many bytes were written together with the origin.
    /// Bytes of `buf` past the payload keep their old values.
    pub fn read_into(&self, buf: &mut Vec<u8>) -> (r: (usize, SockAddr))
        ensures
            r.0 == if old(buf)@.len() <= self@.data.len() {
                old(buf)@.len()
            } else {
                self@.data.len()
            },
            r.1 == self@.from,
            final(buf)@.len() == old(buf)@.len(),
            forall|i: int| 0 <= i < r.0 ==> final(buf)@[i] == self@.data[i],
            forall|i: int| r.0 <= i < old(buf)@.len() ==> final(buf)@[i] == old(buf)@[i as int],
    {
        let data = bytes_as_slice(&self.data);
        let n: usize = if buf.len() <= data.len() {
            buf.len()
        } else {
            data.len()
        };
        let mut i: usize = 0;
        while i < n
            invariant
                i <= n,
                n <= data@.len(),
                n <= old(buf)@.len(),
                buf@.len() == old(buf)@.len(),
                data@ == bytes_view(self.data),
                forall|j: int| 0 <= j < i ==> buf@[j] == data@[j],
                forall|j: int| i <= j < old(buf)@.len() ==> buf@[j] == old(buf)@[j],
            decreases n - i,
        {
            let v = data[i];
            buf[i] = v;
            i += 1;
        }
        (n, self.from)
    }
}

} // verus!
