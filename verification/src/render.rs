//! The sanitizing walker: serialization of a tree under a policy.

use vstd::prelude::*;
use vstd::string::*;

use crate::policy::{NoopPolicy, Policy};
use crate::tag::{decision_of, Decision, Tag};
use crate::text::{contains_string, trim, trim_spec};
use crate::tree::{node_wf, spec_children, Node, Tree};

verus! {

/// The serialized form of one attribute pair: ` key="value"`.
pub open spec fn attr_text(kv: (Seq<char>, Seq<char>)) -> Seq<char> {
    seq![' '] + kv.0 + seq!['=', '"'] + kv.1 + seq!['"']
}

/// The serialized attribute list: the original pairs in their original
/// order, each kept exactly when its key is among the allowed names.
pub open spec fn render_attrs(
    attrs: Seq<(Seq<char>, Seq<char>)>,
    allowed: Seq<Seq<char>>,
) -> Seq<char>
    decreases attrs.len(),
{
    if attrs.len() == 0 {
        Seq::empty()
    } else {
        render_attrs(attrs.drop_last(), allowed) + (if allowed.contains(attrs.last().0) {
            attr_text(attrs.last())
        } else {
            Seq::<char>::empty()
        })
    }
}

/// What one element contributes to the output, given its decision and the
/// rendered contribution `inner` of its children.  A rewrite replaces
/// everything; otherwise the suppression flags govern the tag markup and
/// the children independently.
pub open spec fn render_element(
    name: Seq<char>,
    attrs: Seq<(Seq<char>, Seq<char>)>,
    d: Decision,
    inner: Seq<char>,
) -> Seq<char> {
    match d.rewrite {
        Some(r) => r,
        None => (if !d.ignore_self {
            seq!['<'] + name + render_attrs(attrs, d.allowed) + seq!['>']
        } else {
            Seq::<char>::empty()
        }) + (if !d.ignore_contents {
            inner
        } else {
            Seq::<char>::empty()
        }) + (if !d.ignore_self {
            seq!['<', '/'] + name + seq!['>']
        } else {
            Seq::<char>::empty()
        }),
    }
}

/// What the node at arena index `i` contributes to the output under
/// policy `p`.
pub open spec fn render_node<P: Policy>(p: &P, nodes: Seq<Node>, i: int) -> Seq<char>
    decreases i, 1int, 0int,
{
    if 0 <= i < nodes.len() {
        match nodes[i] {
            Node::Document { children } => render_children(
                p,
                nodes,
                children@,
                i,
                children@.len() as int,
            ),
            Node::Element { name, attrs, children } => render_element(
                name@,
                attrs.deep_view(),
                p.spec_decide(name@, attrs.deep_view()),
                render_children(p, nodes, children@, i, children@.len() as int),
            ),
            Node::Text { content } => trim_spec(content@),
            Node::Comment => Seq::empty(),
            Node::Doctype => Seq::empty(),
            Node::ProcessingInstruction { children } => render_children(
                p,
                nodes,
                children@,
                i,
                children@.len() as int,
            ),
        }
    } else {
        Seq::empty()
    }
}

/// What the first `k` of the children `cs` contribute, concatenated in
/// order; each child is expected to lie below `bound` in the arena.
pub open spec fn render_children<P: Policy>(
    p: &P,
    nodes: Seq<Node>,
    cs: Seq<usize>,
    bound: int,
    k: int,
) -> Seq<char>
    decreases bound, 0int, k,
{
    if k <= 0 || k > cs.len() || bound < 0 {
        Seq::empty()
    } else {
        render_children(p, nodes, cs, bound, k - 1) + (if (cs[k - 1] as int) < bound {
            render_node(p, nodes, cs[k - 1] as int)
        } else {
            Seq::<char>::empty()
        })
    }
}

/// The whole output of a walk: the contribution of the root node (the
/// last arena entry), or nothing for an empty tree.
pub open spec fn spec_walk<P: Policy>(p: &P, t: Tree) -> Seq<char> {
    if t.nodes@.len() > 0 {
        render_node(p, t.nodes@, t.nodes@.len() - 1)
    } else {
        Seq::empty()
    }
}

/// The concatenated serialization of a list of attribute pairs.
pub open spec fn join_attr_texts(attrs: Seq<(Seq<char>, Seq<char>)>) -> Seq<char>
    decreases attrs.len(),
{
    if attrs.len() == 0 {
        Seq::empty()
    } else {
        join_attr_texts(attrs.drop_last()) + attr_text(attrs.last())
    }
}

/// What the node at arena index `i` contributes when no decisions are
/// made: every element keeps its tag markup with no attributes, every
/// text node its trimmed text.
pub open spec fn render_default_node(nodes: Seq<Node>, i: int) -> Seq<char>
    decreases i, 1int, 0int,
{
    if 0 <= i < nodes.len() {
        match nodes[i] {
            Node::Document { children } => render_default_children(
                nodes,
                children@,
                i,
                children@.len() as int,
            ),
            Node::Element { name, attrs, children } => seq!['<'] + name@ + seq!['>']
                + render_default_children(nodes, children@, i, children@.len() as int)
                + seq!['<', '/'] + name@ + seq!['>'],
            Node::Text { content } => trim_spec(content@),
            Node::Comment => Seq::empty(),
            Node::Doctype => Seq::empty(),
            Node::ProcessingInstruction { children } => render_default_children(
                nodes,
                children@,
                i,
                children@.len() as int,
            ),
        }
    } else {
        Seq::empty()
    }
}

/// The default contributions of the first `k` children of a node, in
/// order.
pub open spec fn render_default_children(nodes: Seq<Node>, cs: Seq<usize>, bound: int, k: int) -> Seq<
    char,
>
    decreases bound, 0int, k,
{
    if k <= 0 || k > cs.len() || bound < 0 {
        Seq::empty()
    } else {
        render_default_children(nodes, cs, bound, k - 1) + (if (cs[k - 1] as int) < bound {
            render_default_node(nodes, cs[k - 1] as int)
        } else {
            Seq::<char>::empty()
        })
    }
}

/// Filtering against an empty allow-list drops every attribute.
proof fn lemma_render_attrs_empty(attrs: Seq<(Seq<char>, Seq<char>)>)
    ensures
        render_attrs(attrs, Seq::empty()) == Seq::<char>::empty(),
    decreases attrs.len(),
{
    if attrs.len() > 0 {
        lemma_render_attrs_empty(attrs.drop_last());
        assert(!Seq::<Seq<char>>::empty().contains(attrs.last().0));
        assert(render_attrs(attrs, Seq::empty()) =~= Seq::<char>::empty());
    }
}

/// A policy that makes no decisions reproduces the original tree's
/// structure with all attributes stripped: every element and text node is
/// retained, every attribute dropped.
pub proof fn lemma_noop_policy_node<P: Policy>(p: &P, nodes: Seq<Node>, i: int)
    requires
        forall|n: Seq<char>, a: Seq<(Seq<char>, Seq<char>)>|
            #[trigger] p.spec_decide(n, a) == Decision::fresh(),
    ensures
        render_node(p, nodes, i) == render_default_node(nodes, i),
    decreases i, 1int, 0int,
{
    if 0 <= i < nodes.len() {
        let node = nodes[i];
        match node {
            Node::Document { children } => {
                lemma_noop_policy_children(p, nodes, children@, i, children@.len() as int);
            },
            Node::Element { name, attrs, children } => {
                lemma_noop_policy_children(p, nodes, children@, i, children@.len() as int);
                lemma_render_attrs_empty(attrs.deep_view());
                let inner = render_children(p, nodes, children@, i, children@.len() as int);
                assert(p.spec_decide(name@, attrs.deep_view()) == Decision::fresh());
                assert(render_element(name@, attrs.deep_view(), Decision::fresh(), inner)
                    =~= seq!['<'] + name@ + seq!['>'] + inner + seq!['<', '/'] + name@ + seq!['>']);
                assert(render_node(p, nodes, i) =~= render_default_node(nodes, i));
            },
            Node::ProcessingInstruction { children } => {
                lemma_noop_policy_children(p, nodes, children@, i, children@.len() as int);
            },
            _ => {},
        }
    }
}

/// Companion of [`lemma_noop_policy_node`] for a child list.
pub proof fn lemma_noop_policy_children<P: Policy>(
    p: &P,
    nodes: Seq<Node>,
    cs: Seq<usize>,
    bound: int,
    k: int,
)
    requires
        forall|n: Seq<char>, a: Seq<(Seq<char>, Seq<char>)>|
            #[trigger] p.spec_decide(n, a) == Decision::fresh(),
    ensures
        render_children(p, nodes, cs, bound, k) == render_default_children(nodes, cs, bound, k),
    decreases bound, 0int, k,
{
    if k <= 0 || k > cs.len() || bound < 0 {
    } else {
        lemma_noop_policy_children(p, nodes, cs, bound, k - 1);
        if (cs[k - 1] as int) < bound {
            lemma_noop_policy_node(p, nodes, cs[k - 1] as int);
        }
    }
}

/// Walking any tree with [`NoopPolicy`] yields exactly the default
/// rendering of its root.
pub proof fn lemma_noop_walk(p: &NoopPolicy, t: Tree)
    ensures
        spec_walk(p, t) == (if t.nodes@.len() > 0 {
            render_default_node(t.nodes@, t.nodes@.len() - 1)
        } else {
            Seq::<char>::empty()
        }),
{
    if t.nodes@.len() > 0 {
        lemma_noop_policy_node(p, t.nodes@, t.nodes@.len() - 1);
    }
}

/// A rewrite takes precedence over every other flag: whenever a decision
/// carries replacement text, the element and its whole subtree contribute
/// exactly that text, whatever the suppression flags say.
pub proof fn lemma_rewrite_precedence(
    name: Seq<char>,
    attrs: Seq<(Seq<char>, Seq<char>)>,
    d: Decision,
    inner: Seq<char>,
)
    requires
        d.rewrite is Some,
    ensures
        render_element(name, attrs, d, inner) == d.rewrite->0,
{
}

/// An element ruled ignore-self-and-contents, and not rewritten,
/// contributes nothing: no tag markup and nothing of its subtree.
pub proof fn lemma_suppressed_element_empty(
    name: Seq<char>,
    attrs: Seq<(Seq<char>, Seq<char>)>,
    d: Decision,
    inner: Seq<char>,
)
    requires
        d.rewrite is None,
        d.ignore_self,
        d.ignore_contents,
    ensures
        render_element(name, attrs, d, inner) == Seq::<char>::empty(),
{
    assert(render_element(name, attrs, d, inner) =~= Seq::<char>::empty());
}

/// The attribute allow-list is order-preserving and original-order
/// filtered: the rendered attribute list is exactly the original pair
/// list, filtered to the pairs whose key is allowed, serialized in its
/// original order.
pub proof fn lemma_render_attrs_is_filter(
    attrs: Seq<(Seq<char>, Seq<char>)>,
    allowed: Seq<Seq<char>>,
)
    ensures
        render_attrs(attrs, allowed) == join_attr_texts(
            attrs.filter(|kv: (Seq<char>, Seq<char>)| allowed.contains(kv.0)),
        ),
    decreases attrs.len(),
{
    reveal(Seq::filter);
    let f = |kv: (Seq<char>, Seq<char>)| allowed.contains(kv.0);
    if attrs.len() == 0 {
        assert(attrs.filter(f).len() == 0);
    } else {
        let dl = attrs.drop_last();
        lemma_render_attrs_is_filter(dl, allowed);
        if f(attrs.last()) {
            let pushed = dl.filter(f).push(attrs.last());
            assert(attrs.filter(f) == pushed);
            assert(pushed.drop_last() =~= dl.filter(f));
            assert(pushed.last() == attrs.last());
            assert(join_attr_texts(pushed) == join_attr_texts(dl.filter(f)) + attr_text(
                attrs.last(),
            ));
        } else {
            assert(attrs.filter(f) == dl.filter(f));
            assert(render_attrs(attrs, allowed) =~= render_attrs(dl, allowed));
        }
    }
}

/// Copy an attribute list, pair by pair.
fn clone_pairs(v: &Vec<(String, String)>) -> (r: Vec<(String, String)>)
    ensures
        r@ == v@,
{
    let n = v.len();
    let mut r: Vec<(String, String)> = Vec::new();
    let mut k: usize = 0;
    while k < n
        invariant
            k <= n,
            n == v@.len(),
            r@ == v@.take(k as int),
        decreases n - k,
    {
        let key = v[k].0.clone();
        let val = v[k].1.clone();
        r.push((key, val));
        proof {
            assert(r@ =~= v@.take(k as int + 1));
        }
        k += 1;
    }
    proof {
        assert(v@.take(n as int) =~= v@);
    }
    r
}

impl Tree {
    /// Walk the whole tree, calling the policy on every element, and
    /// return the sanitized output.
    pub fn walk<P: Policy>(&self, policy: &P) -> (out: String)
        requires
            self.wf(),
        ensures
            out@ == spec_walk(policy, *self),
    {
        if self.nodes.len() == 0 {
            String::new()
        } else {
            self.render_from(self.nodes.len() - 1, policy)
        }
    }

    /// Serialize the node at arena index `i` and, through recursion, its
    /// subtree.
    fn render_from<P: Policy>(&self, i: usize, policy: &P) -> (out: String)
        requires
            self.wf(),
            i < self.nodes@.len(),
        ensures
            out@ == render_node(policy, self.nodes@, i as int),
        decreases i, 1int,
    {
        proof {
            assert(node_wf(self.nodes@[i as int], i as int));
        }
        match &self.nodes[i] {
            Node::Text { content } => {
                let out = trim(content.as_str());
                proof {
                    assert(out@ == render_node(policy, self.nodes@, i as int));
                }
                out
            },
            Node::Comment => String::new(),
            Node::Doctype => String::new(),
            Node::Document { children } => {
                proof {
                    assert(spec_children(self.nodes@[i as int]) == children@);
                }
                self.render_children_from(children, i, policy)
            },
            Node::ProcessingInstruction { children } => {
                proof {
                    assert(spec_children(self.nodes@[i as int]) == children@);
                }
                self.render_children_from(children, i, policy)
            },
            Node::Element { name, attrs, children } => {
                proof {
                    assert(spec_children(self.nodes@[i as int]) == children@);
                }
                let ghost d = policy.spec_decide(name@, attrs.deep_view());
                let ghost inner = render_children(
                    policy,
                    self.nodes@,
                    children@,
                    i as int,
                    children@.len() as int,
                );
                let cloned = clone_pairs(attrs);
                let mut tag = Tag::from_name_and_attrs(name.clone(), cloned);
                policy.decide(&mut tag);
                proof {
                    assert(decision_of(tag) == d);
                    assert(render_node(policy, self.nodes@, i as int) == render_element(
                        name@,
                        attrs.deep_view(),
                        d,
                        inner,
                    ));
                }
                if tag.rewrite.is_some() {
                    let out = tag.rewrite.unwrap();
                    proof {
                        assert(d.rewrite == Some(out@));
                    }
                    return out;
                }
                proof {
                    assert(d.rewrite is None);
                }
                let mut out = String::new();
                if !tag.ignore_self {
                    out.append("<");
                    out.append(name.as_str());
                    proof {
                        reveal_strlit("<");
                        assert("<"@ =~= seq!['<']);
                        assert(out@ =~= seq!['<'] + name@);
                    }
                    let n_attrs = tag.attrs.len();
                    let mut k: usize = 0;
                    while k < n_attrs
                        invariant
                            k <= n_attrs,
                            n_attrs == tag.attrs@.len(),
                            tag.attrs.deep_view() == attrs.deep_view(),
                            decision_of(tag) == d,
                            out@ == seq!['<'] + name@ + render_attrs(
                                attrs.deep_view().take(k as int),
                                d.allowed,
                            ),
                        decreases n_attrs - k,
                    {
                        proof {
                            assert(attrs.deep_view()[k as int] == (
                                tag.attrs@[k as int].0@,
                                tag.attrs@[k as int].1@,
                            ));
                        }
                        let keep = contains_string(
                            &tag.allowed_attributes,
                            tag.attrs[k].0.as_str(),
                        );
                        if keep {
                            out.append(" ");
                            out.append(tag.attrs[k].0.as_str());
                            out.append("=\"");
                            out.append(tag.attrs[k].1.as_str());
                            out.append("\"");
                            proof {
                                reveal_strlit(" ");
                                reveal_strlit("=\"");
                                reveal_strlit("\"");
                                assert(" "@ =~= seq![' ']);
                                assert("=\""@ =~= seq!['=', '"']);
                                assert("\""@ =~= seq!['"']);
                            }
                        }
                        proof {
                            assert(attrs.deep_view().take(k as int + 1).drop_last()
                                =~= attrs.deep_view().take(k as int));
                            assert(attrs.deep_view().take(k as int + 1).last()
                                == attrs.deep_view()[k as int]);
                            assert(out@ =~= seq!['<'] + name@ + render_attrs(
                                attrs.deep_view().take(k as int + 1),
                                d.allowed,
                            ));
                        }
                        k += 1;
                    }
                    proof {
                        assert(attrs.deep_view().take(n_attrs as int) =~= attrs.deep_view());
                    }
                    out.append(">");
                    proof {
                        reveal_strlit(">");
                        assert(">"@ =~= seq!['>']);
                    }
                }
                if !tag.ignore_contents {
                    let piece = self.render_children_from(children, i, policy);
                    out.append(piece.as_str());
                }
                if !tag.ignore_self {
                    out.append("</");
                    out.append(name.as_str());
                    out.append(">");
                    proof {
                        reveal_strlit("</");
                        reveal_strlit(">");
                        assert("</"@ =~= seq!['<', '/']);
                        assert(">"@ =~= seq!['>']);
                    }
                }
                proof {
                    assert(out@ =~= render_element(name@, attrs.deep_view(), d, inner));
                }
                out
            },
        }
    }

    /// Serialize the given children, in order, concatenating their
    /// contributions.
    fn render_children_from<P: Policy>(&self, children: &Vec<usize>, i: usize, policy: &P) -> (out:
        String)
        requires
            self.wf(),
            i <= self.nodes@.len(),
            forall|m: int| 0 <= m < children@.len() ==> (children@[m] as int) < i,
        ensures
            out@ == render_children(policy, self.nodes@, children@, i as int, children@.len() as int),
        decreases i, 0int,
    {
        let n = children.len();
        let mut out = String::new();
        let mut k: usize = 0;
        while k < n
            invariant
                k <= n,
                n == children@.len(),
                self.wf(),
                i <= self.nodes@.len(),
                forall|m: int| 0 <= m < children@.len() ==> (children@[m] as int) < i,
                out@ == render_children(policy, self.nodes@, children@, i as int, k as int),
            decreases n - k,
        {
            let c = children[k];
            let piece = self.render_from(c, policy);
            out.append(piece.as_str());
            proof {
                assert(out@ =~= render_children(
                    policy,
                    self.nodes@,
                    children@,
                    i as int,
                    k as int + 1,
                ));
            }
            k += 1;
        }
        out
    }
}

} // verus!
