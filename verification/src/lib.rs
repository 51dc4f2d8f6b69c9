//! Verified core of a suite of bare-metal RISC-V benchmarks.

pub mod bench;
pub mod htif;
pub mod marchid;
pub mod median;
pub mod multiply;
pub mod qsort;
pub mod vvadd;
pub mod sat;
pub mod huffman;
pub mod graph;
pub mod hash;
pub mod cipher;
pub mod compress;
pub mod sorting;
pub mod matching;
pub mod records;
pub mod nic;
pub mod blkdev;
pub mod harts;
