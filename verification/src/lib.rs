//! A mutable p-code data-flow graph and the decompiler passes that rewrite it.

pub mod pcode;
pub mod funcproto;
pub mod graph;
pub mod action;
pub mod actiondb;
pub mod casts;
pub mod cover;
pub mod callproto;
pub mod callspecs;
pub mod branchaction;
pub mod blockaction;
pub mod bitfield;
pub mod deadcode;
pub mod equality;
pub mod coreaction;
pub mod alias;
pub mod dynamic;
pub mod condprop;
pub mod lifted;
