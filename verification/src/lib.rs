//! A generational, moving garbage collector over two in-memory regions: a
//! bump-allocated young (Eden) region and a size-class old (Intermediate)
//! region. Client code holds typed handles that name pinned descriptors, and
//! the collector migrates the underlying bytes between the regions while the
//! handles stay valid.

mod bump_heap;
mod free_list;
mod memory;
mod rooted;
mod sweep_heap;
mod weight;

pub use bump_heap::BumpHeap;
pub use bump_heap::BumpOptions;
pub use bump_heap::HeapError;
pub use free_list::FreeList;
pub use free_list::PocketSize;
pub use free_list::HUGE_POCKET;
pub use free_list::LARGE_POCKET;
pub use free_list::MEDIUM_POCKET;
pub use free_list::MINI_POCKET;
pub use free_list::NUMBER_MEMORY_POCKETS;
pub use free_list::SMALL_POCKET;
pub use free_list::TINY_POCKET;
pub use memory::padding_for;
pub use memory::AllocId;
pub use memory::HeapPointer;
pub use rooted::ContainingHeap;
pub use rooted::Color;
pub use rooted::HeapValue;
pub use rooted::Rooted;
pub use rooted::RootedInner;
pub use sweep_heap::SweepHeap;
pub use weight::Shade;
pub use weight::Weight;
