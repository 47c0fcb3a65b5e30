//! The uncompiled automaton nodes that the registries deduplicate.

use vstd::prelude::*;

verus! {

/// The address of a compiled node.
pub type CompiledAddr = usize;

/// The address of no compiled node: a registry cell holding it is empty.
pub const NONE_ADDRESS: CompiledAddr = 1;

/// A transition out of a node: on input byte `inp`, emit `out` and go to
/// the node compiled at `addr`.
#[derive(Clone, Copy, Debug, PartialEq, Eq, Structural, Hash)]
pub struct Transition {
    /// The address of the node this transition leads to.
    pub addr: CompiledAddr,
    /// The input byte of this transition.
    pub inp: u8,
    /// The output emitted along this transition.
    pub out: u64,
}

/// A node that has not been compiled yet.
#[derive(Debug)]
pub struct BuilderNode {
    /// Whether the node accepts.
    pub is_final: bool,
    /// The output emitted when the node accepts.
    pub final_output: u64,
    /// The transitions out of the node, in order.
    pub trans: Vec<Transition>,
}

impl View for BuilderNode {
    type V = (bool, u64, Seq<Transition>);

    open spec fn view(&self) -> (bool, u64, Seq<Transition>) {
        (self.is_final, self.final_output, self.trans@)
    }
}

impl BuilderNode {
    /// A node that does not accept and has no transitions.
    pub fn new() -> (n: BuilderNode)
        ensures
            n@ == (false, 0u64, Seq::<Transition>::empty()),
    {
        BuilderNode { is_final: false, final_output: 0, trans: Vec::new() }
    }

    /// Whether the two nodes are the same node.
    pub fn same_as(&self, other: &BuilderNode) -> (b: bool)
        ensures
            b == (self@ == other@),
    {
        if self.is_final != other.is_final || self.final_output != other.final_output {
            return false;
        }
        if self.trans.len() != other.trans.len() {
            return false;
        }
        let n = self.trans.len();
        let mut i: usize = 0;
        while i < n
            invariant
                n == self.trans@.len(),
                n == other.trans@.len(),
                i <= n,
                forall|j: int| 0 <= j < i ==> self.trans@[j] == other.trans@[j],
            decreases n - i,
        {
            if self.trans[i] != other.trans[i] {
                return false;
            }
            i = i + 1;
        }
        assert(self.trans@ =~= other.trans@);
        true
    }

    /// Makes this node a copy of `other`.
    pub fn clone_from(&mut self, other: &BuilderNode)
        ensures
            final(self)@ == other@,
    {
        self.is_final = other.is_final;
        self.final_output = other.final_output;
        self.trans.clear();
        self.trans.extend_from_slice(other.trans.as_slice());
        assert(self.trans@ =~= other.trans@);
    }
}

} // verus!
