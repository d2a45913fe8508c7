//! Pluggable memory resources and a segmented, growable sequence built on them.
//!
//! A [`MemoryResource`](a::MemoryResource) hands out regions of an address
//! space and takes them back. An [`Allocator`](a::Allocator) fronts one
//! resource and adds requests sized for a type. A [`Seque`](seque::Seque) is a
//! sequence kept in a chain of equal segments ([`Node`](node::Node)), every
//! region of which it obtains through its handle and gives back when it is
//! released; nothing in it assumes an allocator that is simply there.
//!
//! Regions are plain addresses. A resource is described by the log of the
//! calls made on it, and a container by the requests that were granted for
//! it. The contracts say which calls an operation makes and in which order,
//! that a container gives back exactly what it was given, the region it
//! obtained last first, and what its elements are. The values of the slots
//! are kept by the segments themselves.
//!
//! Two resources come with the crate: [`BumpResource`](bump::BumpResource),
//! which spends a fixed range of addresses front to back, and
//! [`TrackingResource`](tracking::TrackingResource), which wraps another
//! resource and counts the bytes outstanding.

pub mod a;
pub mod bump;
pub mod error;
pub mod iter;
pub mod laws;
pub mod node;
pub mod prelude;
pub mod seque;
pub mod tracking;
