pub mod item;
pub mod pqueue;

pub use item::Item;
pub use pqueue::PQueue;
pub use pqueue::Priority;
