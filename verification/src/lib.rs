//! Batched depth-first enumeration of implicit trees.
//!
//! A generation rule describes an arbitrarily deep tree by giving, for each
//! node value, the ordered list of its children.  The traversal driver emits
//! node values in depth-first order while invoking the rule on whole batches
//! of parent values at once; a reordering step corrects the distortions that
//! batching introduces, so the output order is independent of the batch size.

pub mod adapter;
pub mod batch;
pub mod reader;
pub mod stack;
