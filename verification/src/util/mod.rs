pub mod area;
pub mod color;
pub mod cover;
pub mod pruning;
pub mod rect;
pub mod region;
pub mod weak_vec;

pub use color::Color;
pub use color::TextColors;
pub use region::Region;
pub use weak_vec::BorrowConflict;
pub use weak_vec::WeakCell;
pub use weak_vec::WeakMetaHandle;
pub use weak_vec::WeakMetaVec;
pub use weak_vec::WeakVec;
