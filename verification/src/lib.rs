//! A stack-machine interpreter for postfix arithmetic programs over opaque
//! values, such as the ciphertexts of a homomorphic encryption scheme.

pub mod interpreter;
pub mod laws;
pub mod machine;
pub mod operands;
pub mod program;
pub mod tree;
