//! Verified core of a slotted-page storage engine: pages that pack
//! variable-length records with stable slot identifiers, heap files of such
//! pages with a byte-exact on-disk image, a storage manager multiplexing
//! containers, and a streaming grouped-aggregation operator.

pub mod aggregate;
pub mod codec;
pub mod errors;
pub mod heapfile;
pub mod page;
pub mod pageimage;
pub mod registry;
pub mod storage_manager;

use vstd::prelude::*;

verus! {

/// Size in bytes of one page image.
pub const PAGE_SIZE: usize = 4096;

} // verus!
