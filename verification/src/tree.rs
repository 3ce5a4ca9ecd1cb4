//! The parsed HTML node tree the sanitizer walks.
//!
//! Nodes live in an arena and refer to their children by index; every
//! child index points at an earlier arena entry, so a tree is built
//! bottom-up and the root is the entry pushed last.  The walker never
//! mutates a tree.

use vstd::prelude::*;

verus! {

/// One node of a parsed HTML document, with children in document order.
pub enum Node {
    /// The document root; never itself rendered.
    Document { children: Vec<usize> },
    /// An element with its tag name and ordered attribute pairs
    /// (duplicate keys permitted and preserved in order).
    Element { name: String, attrs: Vec<(String, String)>, children: Vec<usize> },
    /// A text node holding the raw, untrimmed text.
    Text { content: String },
    /// A comment; carried structurally, never emitted.
    Comment,
    /// A doctype; carried structurally, never emitted.
    Doctype,
    /// A processing instruction: emits nothing itself, but its children
    /// (an unexpected tree shape) are still walked.
    ProcessingInstruction { children: Vec<usize> },
}

/// The child indices of a node; empty for text, comment and doctype nodes.
pub open spec fn spec_children(n: Node) -> Seq<usize> {
    match n {
        Node::Document { children } => children@,
        Node::Element { children, .. } => children@,
        Node::ProcessingInstruction { children } => children@,
        _ => Seq::empty(),
    }
}

/// A node stored at arena position `i` is well formed when all of its
/// children lie strictly before it.
pub open spec fn node_wf(n: Node, i: int) -> bool {
    forall|k: int| 0 <= k < spec_children(n).len() ==> (spec_children(n)[k] as int) < i
}

/// An HTML document held as an arena of nodes.  The root, if the tree is
/// not empty, is the last entry.
pub struct Tree {
    /// The arena; entry `i` only refers to entries before `i`.
    pub nodes: Vec<Node>,
}

/// Whether every child index of `children` is strictly below `bound`.
pub fn children_below(children: &Vec<usize>, bound: usize) -> (r: bool)
    ensures
        r == forall|k: int| 0 <= k < children@.len() ==> (children@[k] as int) < bound,
{
    let n = children.len();
    let mut k: usize = 0;
    while k < n
        invariant
            k <= n,
            n == children@.len(),
            forall|m: int| 0 <= m < k ==> (children@[m] as int) < bound,
        decreases n - k,
    {
        if children[k] >= bound {
            return false;
        }
        k += 1;
    }
    true
}

impl Tree {
    /// Every arena entry only points backwards; the shape every walk
    /// relies on.
    pub open spec fn wf(&self) -> bool {
        forall|i: int| 0 <= i < self.nodes@.len() ==> node_wf(self.nodes@[i], i)
    }

    /// An empty tree: no nodes, walks to the empty string.
    pub fn new() -> (t: Tree)
        ensures
            t.nodes@ == Seq::<Node>::empty(),
            t.wf(),
    {
        let t = Tree { nodes: Vec::new() };
        proof {
            assert(t.nodes@ =~= Seq::<Node>::empty());
        }
        t
    }

    /// How many nodes the arena holds.
    pub fn len(&self) -> (n: usize)
        ensures
            n == self.nodes@.len(),
    {
        self.nodes.len()
    }

    /// Whether `n` could be pushed next: all its children must already be
    /// in the arena.
    pub fn check_node(&self, n: &Node) -> (r: bool)
        ensures
            r == node_wf(*n, self.nodes@.len() as int),
    {
        match n {
            Node::Document { children } => {
                proof {
                    assert(spec_children(*n) == children@);
                }
                children_below(children, self.nodes.len())
            },
            Node::Element { children, .. } => {
                proof {
                    assert(spec_children(*n) == children@);
                }
                children_below(children, self.nodes.len())
            },
            Node::ProcessingInstruction { children } => {
                proof {
                    assert(spec_children(*n) == children@);
                }
                children_below(children, self.nodes.len())
            },
            _ => {
                proof {
                    assert(spec_children(*n) =~= Seq::<usize>::empty());
                }
                true
            },
        }
    }

    /// Append a node whose children are already in the arena; returns its
    /// index, under which later nodes can refer to it as a child.
    pub fn push_node(&mut self, n: Node) -> (idx: usize)
        requires
            node_wf(n, old(self).nodes@.len() as int),
        ensures
            idx == old(self).nodes@.len(),
            final(self).nodes@ == old(self).nodes@.push(n),
            old(self).wf() ==> final(self).wf(),
    {
        let idx = self.nodes.len();
        self.nodes.push(n);
        proof {
            if old(self).wf() {
                assert forall|i: int| 0 <= i < self.nodes@.len() implies node_wf(
                    self.nodes@[i],
                    i,
                ) by {
                    if i < old(self).nodes@.len() {
                        assert(self.nodes@[i] == old(self).nodes@[i]);
                    } else {
                        assert(self.nodes@[i] == n);
                    }
                }
            }
        }
        idx
    }

    /// Whether the whole arena is well formed; lets unverified callers
    /// test a tree before walking it.
    pub fn is_well_formed(&self) -> (r: bool)
        ensures
            r == self.wf(),
    {
        let n = self.nodes.len();
        let mut i: usize = 0;
        while i < n
            invariant
                i <= n,
                n == self.nodes@.len(),
                forall|j: int| 0 <= j < i ==> node_wf(self.nodes@[j], j),
            decreases n - i,
        {
            let ok = match &self.nodes[i] {
                Node::Document { children } => {
                    proof {
                        assert(spec_children(self.nodes@[i as int]) == children@);
                    }
                    children_below(children, i)
                },
                Node::Element { children, .. } => {
                    proof {
                        assert(spec_children(self.nodes@[i as int]) == children@);
                    }
                    children_below(children, i)
                },
                Node::ProcessingInstruction { children } => {
                    proof {
                        assert(spec_children(self.nodes@[i as int]) == children@);
                    }
                    children_below(children, i)
                },
                _ => {
                    proof {
                        assert(spec_children(self.nodes@[i as int]) =~= Seq::<usize>::empty());
                    }
                    true
                },
            };
            if !ok {
                proof {
                    assert(!node_wf(self.nodes@[i as int], i as int));
                }
                return false;
            }
            i += 1;
        }
        true
    }
}

} // verus!
