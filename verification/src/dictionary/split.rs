//! Split rules: a pattern whose match divides a text into the part before
//! it, its groups and the part after it, each translated on its own.

use vstd::prelude::*;

verus! {

/// Where a split rule matched a text, in byte offsets of that text: the
/// whole match, each group (`None` where a group took no part), and the
/// replacement template.
#[derive(Debug, Clone, PartialEq, Eq)]
pub struct SplitResult {
    pub full_match_start: usize,
    pub full_match_end: usize,
    pub inner_groups: Vec<Option<(usize, usize)>>,
    pub replacement: String,
}

} // verus!
