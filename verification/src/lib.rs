//! Matrix multiplication kernels for a CPU benchmark, with their correctness
//! stated against the mathematical matrix product.
pub mod matrix;
pub mod algorithmus;
pub mod kern;
pub mod einstellungen;
pub mod text;
pub mod prozessor;
pub mod pinning;
pub mod ablauf;
