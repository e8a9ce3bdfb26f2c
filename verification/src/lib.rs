use vstd::prelude::*;

pub mod base64;
pub mod ble;
pub mod bytes;
pub mod crc;
pub mod frame;
pub mod serial;

verus! {

/// Marker for the async transport layer of the SMP protocol: a byte stream that
/// can be read and written (implementers are also `AsyncRead + AsyncWrite`).
///
/// This does not do framing like serial requires.
pub trait SMPTransport {}

impl<T: ?Sized + SMPTransport> SMPTransport for Box<T> {}

impl<'a, T: ?Sized + SMPTransport> SMPTransport for &'a mut T {}

/// `core::pin::Pin`, carried as an opaque type so that pinned transports are transports too.
#[verifier::external_type_specification]
#[verifier::external_body]
#[verifier::reject_recursive_types(Ptr)]
pub struct ExPin<Ptr>(core::pin::Pin<Ptr>);

impl<P> SMPTransport for core::pin::Pin<P> where P: core::ops::DerefMut + Unpin, P::Target: SMPTransport + Unpin {}


} // verus!
