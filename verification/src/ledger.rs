use vstd::prelude::*;

verus! {

/// A record that passed validation. References are `None` when the record
/// they named was itself invalid; otherwise `Some(position)`, where positions
/// are 0-indexed into the internal sequence in which the synthetic origin
/// occupies slot 0.
#[derive(Debug, PartialEq, Eq, Clone, Copy)]
pub struct ValidNode {
    pub left: Option<usize>,
    pub right: Option<usize>,
    pub timestamp: u64,
}

/// One ledger record: either it passed validation and carries its resolved
/// references, or it failed and carries nothing.
#[derive(Debug, PartialEq, Eq, Clone, Copy)]
pub enum Node {
    Valid(ValidNode),
    Invalid,
}

impl Node {
    /// A valid node with both references present.
    pub fn new(left: usize, right: usize, timestamp: u64) -> (r: Node)
        ensures
            r == (Node::Valid(ValidNode {
                left: Some(left),
                right: Some(right),
                timestamp,
            })),
    {
        Node::Valid(ValidNode { left: Some(left), right: Some(right), timestamp })
    }
}

/// The synthetic origin record: always valid, referencing slot 0 (itself),
/// timestamp 0. It stands at internal position 0 during parsing and is
/// stripped from the externally visible sequence.
pub open spec fn origin() -> Node {
    Node::Valid(ValidNode { left: Some(0), right: Some(0), timestamp: 0 })
}

/// The parsed ledger: the externally visible, immutable sequence of records.
/// Reference fields inside the records remain 0-indexed into the internal
/// sequence that includes the origin at position 0.
#[derive(Debug, PartialEq)]
pub struct Ledger(pub Vec<Node>);

impl View for Ledger {
    type V = Seq<Node>;

    open spec fn view(&self) -> Seq<Node> {
        self.0@
    }
}

impl Default for Ledger {
    /// An empty ledger.
    fn default() -> (r: Ledger)
        ensures
            r@ == Seq::<Node>::empty(),
    {
        Ledger(Vec::new())
    }
}

} // verus!
