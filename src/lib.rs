pub mod field;

pub use field::{Fail, Field};
