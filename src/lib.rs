mod order_index;
pub mod rollback;

pub use rollback::{Rollback, RollbackOrdered};
