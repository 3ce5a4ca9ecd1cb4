use html_sanitizer::policy::{Action, ImageLinkPolicy, NoopPolicy, Rule, RulePolicy};
use html_sanitizer::tree::{Node, Tree};

fn push(tree: &mut Tree, node: Node) -> usize {
    assert!(tree.check_node(&node));
    tree.push_node(node)
}

fn s(x: &str) -> String {
    x.to_string()
}

fn element(name: &str, attrs: &[(&str, &str)], children: Vec<usize>) -> Node {
    Node::Element {
        name: s(name),
        attrs: attrs.iter().map(|(k, v)| (s(k), s(v))).collect(),
        children,
    }
}

fn rule(tag: &str, actions: Vec<Action>) -> Rule {
    Rule { tag: s(tag), actions }
}

#[test]
fn noop_keeps_structure_drops_attributes() {
    let mut t = Tree::new();
    let text = push(&mut t, Node::Text { content: s(" hi ") });
    let div = push(&mut t, element("div", &[("class", "x")], vec![text]));
    push(&mut t, Node::Document { children: vec![div] });
    assert!(t.is_well_formed());
    assert_eq!(t.walk(&NoopPolicy), "<div>hi</div>");
}

#[test]
fn nested_elements_render_in_order() {
    let mut t = Tree::new();
    let text = push(&mut t, Node::Text { content: s("x") });
    let p = push(&mut t, element("p", &[], vec![text]));
    let div = push(&mut t, element("div", &[], vec![p]));
    push(&mut t, Node::Document { children: vec![div] });
    assert_eq!(t.walk(&NoopPolicy), "<div><p>x</p></div>");
}

#[test]
fn text_trimming_keeps_interior_whitespace() {
    let mut t = Tree::new();
    let text = push(&mut t, Node::Text { content: s("  hello world  \n") });
    push(&mut t, Node::Document { children: vec![text] });
    assert_eq!(t.walk(&NoopPolicy), "hello world");

    let mut t2 = Tree::new();
    let text2 = push(&mut t2, Node::Text { content: s("\t hello   world \r\n") });
    push(&mut t2, Node::Document { children: vec![text2] });
    assert_eq!(t2.walk(&NoopPolicy), "hello   world");
}

#[test]
fn rewrite_takes_precedence_over_suppression() {
    let mut t = Tree::new();
    let text = push(&mut t, Node::Text { content: s("inner") });
    let p = push(&mut t, element("p", &[("class", "x")], vec![text]));
    push(&mut t, Node::Document { children: vec![p] });
    let policy = RulePolicy {
        rules: vec![rule("p", vec![Action::RewriteAs(s("X")), Action::IgnoreSelfAndContents])],
    };
    assert_eq!(t.walk(&policy), "X");
}

#[test]
fn rewrite_takes_precedence_in_either_order() {
    let mut t = Tree::new();
    let p = push(&mut t, element("p", &[], vec![]));
    push(&mut t, Node::Document { children: vec![p] });
    let policy = RulePolicy {
        rules: vec![rule("p", vec![Action::IgnoreSelfAndContents, Action::RewriteAs(s("X"))])],
    };
    assert_eq!(t.walk(&policy), "X");
    let policy2 = RulePolicy {
        rules: vec![rule("p", vec![Action::IgnoreSelf, Action::RewriteAs(s("X"))])],
    };
    assert_eq!(t.walk(&policy2), "X");
}

#[test]
fn suppressed_subtree_contributes_nothing() {
    let mut t = Tree::new();
    let keep = push(&mut t, Node::Text { content: s("keep") });
    let p = push(&mut t, element("p", &[], vec![keep]));
    let bad = push(&mut t, Node::Text { content: s("bad") });
    let inner = push(&mut t, element("div", &[], vec![bad]));
    let script = push(&mut t, element("script", &[], vec![inner]));
    push(&mut t, Node::Document { children: vec![p, script] });
    let policy = RulePolicy { rules: vec![rule("script", vec![Action::IgnoreSelfAndContents])] };
    assert_eq!(t.walk(&policy), "<p>keep</p>");
}

#[test]
fn allow_list_is_order_preserving_and_filtering() {
    let mut t = Tree::new();
    let p = push(&mut t, element("p", &[("a", "1"), ("b", "2"), ("c", "3")], vec![]));
    push(&mut t, Node::Document { children: vec![p] });
    let policy = RulePolicy {
        rules: vec![rule("p", vec![Action::AllowAttribute(s("a")), Action::AllowAttribute(s("c"))])],
    };
    assert_eq!(t.walk(&policy), "<p a=\"1\" c=\"3\"></p>");
}

#[test]
fn duplicate_attribute_keys_both_survive() {
    let mut t = Tree::new();
    let p = push(&mut t, element("p", &[("class", "a"), ("class", "b")], vec![]));
    push(&mut t, Node::Document { children: vec![p] });
    let policy = RulePolicy { rules: vec![rule("p", vec![Action::AllowAttribute(s("class"))])] };
    assert_eq!(t.walk(&policy), "<p class=\"a\" class=\"b\"></p>");
}

#[test]
fn first_matching_rule_wins() {
    let mut t = Tree::new();
    let p = push(&mut t, element("p", &[("a", "1")], vec![]));
    push(&mut t, Node::Document { children: vec![p] });
    let policy = RulePolicy {
        rules: vec![
            rule("p", vec![Action::AllowAttribute(s("a"))]),
            rule("p", vec![Action::RewriteAs(s("never"))]),
        ],
    };
    assert_eq!(t.walk(&policy), "<p a=\"1\"></p>");
}

#[test]
fn unmatched_elements_keep_tag_and_lose_attributes() {
    let mut t = Tree::new();
    let q = push(&mut t, element("q", &[("cite", "u")], vec![]));
    push(&mut t, Node::Document { children: vec![q] });
    let policy = RulePolicy { rules: vec![rule("p", vec![Action::RewriteAs(s("never"))])] };
    assert_eq!(t.walk(&policy), "<q></q>");
}

#[test]
fn end_to_end_scenario() {
    // <html><head><title>x</title></head>
    //   <body><p style="color:red">Hi</p><img src="http://x.com/a.png"></body></html>
    let mut t = Tree::new();
    let title_text = push(&mut t, Node::Text { content: s("x") });
    let title = push(&mut t, element("title", &[], vec![title_text]));
    let head = push(&mut t, element("head", &[], vec![title]));
    let hi = push(&mut t, Node::Text { content: s("Hi") });
    let p = push(&mut t, element("p", &[("style", "color:red")], vec![hi]));
    let img = push(&mut t, element("img", &[("src", "http://x.com/a.png")], vec![]));
    let body = push(&mut t, element("body", &[], vec![p, img]));
    let html = push(&mut t, element("html", &[], vec![head, body]));
    push(&mut t, Node::Document { children: vec![html] });
    assert!(t.is_well_formed());
    assert_eq!(
        t.walk(&ImageLinkPolicy),
        "<p style=\"color:red\">Hi</p><a href=\"http://x.com/a.png\">a.png</a>"
    );
}

#[test]
fn empty_tree_walks_to_empty_string() {
    let t = Tree::new();
    assert_eq!(t.walk(&NoopPolicy), "");
}

#[test]
fn comments_and_doctypes_are_dropped() {
    let mut t = Tree::new();
    let c = push(&mut t, Node::Comment);
    let d = push(&mut t, Node::Doctype);
    let x = push(&mut t, Node::Text { content: s("x") });
    push(&mut t, Node::Document { children: vec![c, d, x] });
    assert_eq!(t.walk(&NoopPolicy), "x");
}

#[test]
fn processing_instruction_children_still_walked() {
    let mut t = Tree::new();
    let x = push(&mut t, Node::Text { content: s("x") });
    let pi = push(&mut t, Node::ProcessingInstruction { children: vec![x] });
    push(&mut t, Node::Document { children: vec![pi] });
    assert_eq!(t.walk(&NoopPolicy), "x");
}

#[test]
fn ignore_self_keeps_children() {
    let mut t = Tree::new();
    let inner = push(&mut t, Node::Text { content: s("inner") });
    let div = push(&mut t, element("div", &[("class", "x")], vec![inner]));
    push(&mut t, Node::Document { children: vec![div] });
    let policy = RulePolicy { rules: vec![rule("div", vec![Action::IgnoreSelf])] };
    assert_eq!(t.walk(&policy), "inner");
}

#[test]
fn well_formedness_rejects_forward_references() {
    let t = Tree { nodes: vec![Node::Document { children: vec![5] }] };
    assert!(!t.is_well_formed());
    let ok = Tree { nodes: vec![Node::Text { content: s("x") }] };
    assert!(ok.is_well_formed());
}

#[test]
fn check_node_guards_the_arena() {
    let mut t = Tree::new();
    assert_eq!(t.len(), 0);
    let bad = Node::Document { children: vec![0] };
    assert!(!t.check_node(&bad));
    let text = Node::Text { content: s("x") };
    assert!(t.check_node(&text));
    let idx = t.push_node(text);
    assert_eq!(idx, 0);
    assert_eq!(t.len(), 1);
    let good = Node::Document { children: vec![0] };
    assert!(t.check_node(&good));
}
