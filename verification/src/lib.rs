//! A binary search tree whose nodes link down to their children and back up to
//! their parent. The nodes live in one arena and name each other by position,
//! so a link never owns what it points at.

pub mod structure;
