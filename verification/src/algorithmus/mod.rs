//! The benchmarked algorithms: what each worker computes on its share of rows,
//! and how the rows are shared out.
pub mod aufteilung;
pub mod zeilen;
pub mod loop_unrolling;
pub mod block_tiling;
pub mod simd_nutzen;
pub mod single_thread;
pub mod rayon_nutzen;
pub mod manuelle_threads;
pub mod manuelle_threads_unsicher;
pub mod manuelle_threads_alte_version;
pub mod crossbeam_nutzen;
