//! The untyped parse tree: rule-tagged nodes with ordered children and a
//! source span, as handed over from the external parsing engine.

use vstd::prelude::*;

verus! {

/// One node of the untyped concrete parse tree: the matched rule's
/// identity, the byte range of the matched text, and the child nodes in
/// source order.
#[derive(Debug)]
pub struct UntypedNode {
    pub rule: u64,
    pub start: usize,
    pub end: usize,
    pub children: Vec<UntypedNode>,
}

} // verus!
