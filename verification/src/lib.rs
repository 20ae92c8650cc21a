//! A vector that grows without moving its elements and changes its size by
//! publishing descriptors, as a lock-free vector does, with every step of
//! every operation verified; and beside it a sequence lock and a handful
//! of verified algorithms on strings, graphs, trees and numbers.
//!
//! # The vector
//!
//! The vector keeps its elements in buckets of doubling size ([`bucket`]).
//! Its size is what the published descriptor says ([`descriptor`]); an
//! operation changes it by swapping a new descriptor for the one it has
//! read. A `push_back` announces the write of its element in the descriptor
//! it publishes, and whoever reads that descriptor first carries the write
//! out. The descriptors belong to a reclamation strategy ([`strategy`]),
//! which hands them out, publishes them, protects those that an operation
//! is reading, and decides when a retired one is used again: by epochs
//! ([`epoch`]) or by counting protections ([`refcounted`]).
//!
//! Every method of the vector ([`lockfree_vec`]) is one indivisible step,
//! or a sequence of such steps, on a vector that the caller holds
//! exclusively. Operations in flight ([`ops`]) advance one step per call,
//! so that any number of them can take turns on one vector in any order;
//! [`interleaving`] states and proves what holds of every such order.
//! Sharing a vector between threads means letting each thread take single
//! steps in turn, and is left to the caller.
//!
//! # The rest
//!
//! - [`seqlock`]: a sequence lock for one writer.
//! - [`string_find`]: the prefix function of a pattern and the search for
//!   the pattern's first occurrence.
//! - [`aho_corasick`]: counting the occurrences of many words at once.
//! - [`merge_sort`]: merge sort.
//! - [`mirror_binary_tree`]: a search tree that can be mirrored.
//! - [`bitwise_xor`]: the missing and the repeated number.
//! - [`fourier_transform`]: the test for a power of two.
//! - [`spanning_tree`], [`prims_mst`], [`kruskals_minimum_spanning_tree`],
//!   [`boruvka_mst`]: trees in weighted graphs.
//! - [`distributed_ghs_mst`]: the node of a distributed spanning tree
//!   computation.
pub mod aho_corasick;
pub mod backend;
pub mod bitwise_xor;
pub mod boruvka_mst;
pub mod bucket;
pub mod descriptor;
pub mod distributed_ghs_mst;
pub mod epoch;
pub mod fourier_transform;
pub mod guards;
pub mod interleaving;
pub mod kruskals_minimum_spanning_tree;
pub mod lockfree_vec;
pub mod merge_sort;
pub mod mirror_binary_tree;
pub mod ops;
pub mod pool;
pub mod prims_mst;
pub mod refcounted;
pub mod seqlock;
pub mod spanning_tree;
pub mod strategy;
pub mod string_find;
