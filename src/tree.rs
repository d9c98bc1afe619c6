use vstd::prelude::*;
use crate::finding::SourceSpan;

verus! {

/// The kinds of syntax node the rules look at.
#[derive(Clone, Copy, Debug, PartialEq, Eq, Structural)]
pub enum NodeKind {
    /// A `static` item; `name` is the binding, `mutable` and `literal` describe it.
    Static,
    /// A function or method; `diverges` is set when it returns the never type,
    /// `mutable` when it takes its receiver by mutable reference.
    Function,
    /// A local binding of `name`.
    Let,
    /// A copy of the binding `name` passed as a field initializer.
    CloneInit,
    /// A mutation through the receiver.
    SelfMutation,
    /// An explicit lifetime parameter `name` of the enclosing signature.
    LifetimeParam,
    /// A parameter of reference type.
    RefParam,
    /// A block that bypasses safety checks.
    UnsafeBlock,
    /// Any other block.
    Block,
    /// A read of the binding `name`.
    Read,
    /// An integer division; `name` is the divisor when it is a plain binding.
    Division,
    /// A check that `name` is zero, with an early exit.
    ZeroGuard,
    /// A check that the sequence `name` is empty or long enough, with an early exit.
    LenGuard,
    /// A method call `name` whose receiver is a call of `receiver`.
    MethodCall,
    /// Direct indexing into the sequence `name`.
    Index,
    /// An unconditional abort of the program.
    Panic,
    /// Anything else.
    Other,
}

/// One node of a syntax tree, listed in pre-order with its depth.
#[derive(Clone, Debug)]
pub struct Node {
    pub kind: NodeKind,
    pub depth: usize,
    pub span: SourceSpan,
    pub name: String,
    pub receiver: String,
    pub mutable: bool,
    pub literal: bool,
    pub diverges: bool,
}

/// A compilation unit: its source length and its nodes in source (pre-)order.
#[derive(Clone, Debug)]
pub struct SyntaxTree {
    pub source_len: usize,
    pub nodes: Vec<Node>,
}

/// The analysis of a unit stopped because its tree is malformed at `node`.
#[derive(Clone, Copy, Debug, PartialEq, Eq, Structural)]
pub struct InvalidTreeError {
    pub node: usize,
}

/// Node `i` lies within the unit and nests properly under the node before it.
pub open spec fn node_ok(nodes: Seq<Node>, source_len: usize, i: int) -> bool {
    nodes[i].span.start <= nodes[i].span.end && nodes[i].span.end <= source_len && (i == 0
        ==> nodes[i].depth == 0) && (i > 0 ==> nodes[i].depth <= nodes[i - 1].depth + 1)
}

pub open spec fn well_formed(tree: SyntaxTree) -> bool {
    forall|i: int| 0 <= i < tree.nodes.len() ==> node_ok(tree.nodes@, tree.source_len, i)
}

impl Node {
    /// A node with empty names and all flags off.
    pub fn new(kind: NodeKind, depth: usize, span: SourceSpan, name: &str) -> (r: Node)
        ensures
            r.kind == kind,
            r.depth == depth,
            r.span == span,
            r.name@ == name@,
            r.receiver@.len() == 0,
            !r.mutable && !r.literal && !r.diverges,
    {
        Node {
            kind,
            depth,
            span,
            name: name.to_owned(),
            receiver: String::new(),
            mutable: false,
            literal: false,
            diverges: false,
        }
    }
}

impl SyntaxTree {
    /// The first malformed node, if any.
    pub fn validate(&self) -> (r: Result<(), InvalidTreeError>)
        ensures
            r is Ok <==> well_formed(*self),
            r matches Err(e) ==> e.node < self.nodes.len() && !node_ok(self.nodes@, self.source_len, e.node as int)
                && forall|k: int| 0 <= k < e.node ==> node_ok(self.nodes@, self.source_len, k),
    {
        let mut i: usize = 0;
        while i < self.nodes.len()
            invariant
                i <= self.nodes.len(),
                forall|k: int| 0 <= k < i ==> node_ok(self.nodes@, self.source_len, k),
            decreases self.nodes.len() - i,
        {
            let n = &self.nodes[i];
            let nests = if i == 0 {
                n.depth == 0
            } else {
                n.depth <= self.nodes[i - 1].depth || n.depth - 1 <= self.nodes[i - 1].depth
            };
            if !(n.span.start <= n.span.end && n.span.end <= self.source_len && nests) {
                assert(!node_ok(self.nodes@, self.source_len, i as int));
                return Err(InvalidTreeError { node: i });
            }
            i = i + 1;
        }
        Ok(())
    }
}

} // verus!
