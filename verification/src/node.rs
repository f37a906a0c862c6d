//! Authorization trees: the nested shapes of future calls that a principal
//! accepts.

use crate::context::{ContextView, InvocationContext};
use vstd::prelude::*;

verus! {

/// The mathematical value of an [`AuthorizationNode`]: a context and the
/// trees declared below it, in declaration order.
pub struct NodeView {
    pub context: ContextView,
    pub children: Seq<NodeView>,
}

impl NodeView {
    /// A tree is well formed when the context of every node in it is.
    pub open spec fn well_formed(self) -> bool
        decreases self,
    {
        &&& self.context.well_formed()
        &&& forall|i: int|
            0 <= i < self.children.len() ==> (#[trigger] self.children[i]).well_formed()
    }
}

/// One node of an authorization tree: "this exact call is authorized, and
/// the calls nested under it must themselves match `children`".
///
/// Several children may carry the same context; each of them is an entry
/// of its own and is consumed on its own.
#[derive(Debug)]
pub struct AuthorizationNode {
    pub context: InvocationContext,
    pub children: Vec<AuthorizationNode>,
}

/// The value of `node`: its context's value over its children's values.
pub open spec fn node_view(node: AuthorizationNode) -> NodeView
    decreases node,
{
    NodeView {
        context: node.context@,
        children: Seq::new(
            node.children@.len(),
            |i: int|
                if 0 <= i < node.children@.len() {
                    node_view(node.children@[i])
                } else {
                    arbitrary()
                },
        ),
    }
}

impl View for AuthorizationNode {
    type V = NodeView;

    open spec fn view(&self) -> NodeView {
        node_view(*self)
    }
}

/// The values of a sequence of nodes, in order.
pub open spec fn views_of(nodes: Seq<AuthorizationNode>) -> Seq<NodeView> {
    Seq::new(nodes.len(), |i: int| nodes[i]@)
}

impl AuthorizationNode {
    /// A node for `context` with the given trees below it.
    pub fn new(context: InvocationContext, children: Vec<AuthorizationNode>) -> (node: Self)
        ensures
            node@ == (NodeView { context: context@, children: views_of(children@) }),
    {
        let node = AuthorizationNode { context, children };
        proof {
            node.lemma_view();
        }
        node
    }

    /// A node for `context` with nothing below it.
    pub fn leaf(context: InvocationContext) -> (node: Self)
        ensures
            node@ == (NodeView { context: context@, children: Seq::empty() }),
    {
        let node = AuthorizationNode { context, children: Vec::new() };
        proof {
            node.lemma_view();
            assert(views_of(node.children@) =~= Seq::empty());
        }
        node
    }

    /// The value of a node is its context's value over its children's values.
    pub proof fn lemma_view(&self)
        ensures
            self@.context == self.context@,
            self@.children == views_of(self.children@),
    {
        assert(self@.children.len() == self.children@.len());
        assert forall|i: int| 0 <= i < self.children@.len() implies self@.children[i]
            == self.children@[i]@ by {}
        assert(self@.children =~= views_of(self.children@));
    }

    /// Whether every context in the tree is well formed.
    pub fn is_well_formed(&self) -> (valid: bool)
        ensures
            valid == self@.well_formed(),
        decreases self,
    {
        proof {
            self.lemma_view();
        }
        if !self.context.is_well_formed() {
            return false;
        }
        let mut i: usize = 0;
        while i < self.children.len()
            invariant
                i <= self.children.len(),
                self@.children == views_of(self.children@),
                forall|j: int| 0 <= j < i ==> (#[trigger] self@.children[j]).well_formed(),
            decreases self.children.len() - i,
        {
            if !self.children[i].is_well_formed() {
                assert(!self@.children[i as int].well_formed());
                return false;
            }
            i += 1;
        }
        true
    }

    /// A copy of the whole tree.
    pub fn duplicate(&self) -> (copy: AuthorizationNode)
        ensures
            copy@ == self@,
        decreases self,
    {
        let mut children: Vec<AuthorizationNode> = Vec::new();
        let mut i: usize = 0;
        while i < self.children.len()
            invariant
                i <= self.children.len(),
                children@.len() == i,
                forall|j: int| 0 <= j < i ==> (#[trigger] children@[j])@ == self.children@[j]@,
            decreases self.children.len() - i,
        {
            let child = self.children[i].duplicate();
            children.push(child);
            i += 1;
        }
        let copy = AuthorizationNode { context: self.context.duplicate(), children };
        proof {
            self.lemma_view();
            copy.lemma_view();
            assert(views_of(copy.children@) =~= views_of(self.children@));
        }
        copy
    }
}

} // verus!
