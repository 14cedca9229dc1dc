//! What code that builds trees needs most.


pub use crate::traits::RenderToString;
pub use crate::vnode::VNode;
