//! Depth-minimizing arithmetic decomposition: given a target integer and a
//! set of freely available ("extractable") base integers, search for an
//! expression tree over `+` and `*` whose leaves are extractable and whose
//! value is the target, keeping the tree as shallow as the pruned search
//! allows.

pub mod expr;
pub mod search;
