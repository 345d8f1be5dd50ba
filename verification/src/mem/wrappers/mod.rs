//! Owned containers of the kernel heap.

pub mod boxed;
pub mod rc;
pub mod string;
pub mod vec;

pub use boxed::Box;
pub use rc::Rc;
pub use string::String;
pub use vec::Vec;
