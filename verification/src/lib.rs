//! A small Itanium C++ ABI name mangler.
//!
//! The library turns a human-readable, qualified C++ function signature
//! (`Ns::Class::method(const Foo&, int) const`) into the compressed linker
//! symbol the Itanium ABI prescribes for the supported subset, including the
//! substitution scheme that replaces a repeated type encoding by a
//! back-reference (`S0_`, `S1_`, ...).

use vstd::prelude::*;

mod descriptor;
mod laws;
mod mangler;
mod table;
mod text;

verus! {

pub use crate::descriptor::Arg;
pub use crate::descriptor::Prefix;
pub use crate::descriptor::extract_type;
pub use crate::descriptor::is_const;
pub use crate::descriptor::is_pod;
pub use crate::descriptor::is_pointer;
pub use crate::descriptor::is_reference;
pub use crate::descriptor::mangle_pod;
pub use crate::mangler::MangleError;
pub use crate::mangler::mangle;
pub use crate::mangler::mangle_args;
pub use crate::table::Args;

} // verus!
