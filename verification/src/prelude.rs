//! The traits most users of this crate need in scope.

pub use crate::a::AllocatorAwareContainer;
pub use crate::a::MemoryResource;
