use html_sanitizer::policy::{ImageLinkPolicy, Policy, RulePolicy};
use html_sanitizer::tag::Tag;
use html_sanitizer::tree::{Node, Tree};

fn push(tree: &mut Tree, node: Node) -> usize {
    assert!(tree.check_node(&node));
    tree.push_node(node)
}

fn s(x: &str) -> String {
    x.to_string()
}

fn doc_with_element(name: &str, attrs: &[(&str, &str)], children: Vec<usize>, t: &mut Tree) {
    let e = push(
        t,
        Node::Element {
            name: s(name),
            attrs: attrs.iter().map(|(k, v)| (s(k), s(v))).collect(),
            children,
        },
    );
    push(t, Node::Document { children: vec![e] });
}

#[test]
fn tag_starts_fresh() {
    let tag = Tag::from_name_and_attrs(s("div"), vec![(s("a"), s("1"))]);
    assert_eq!(tag.name, "div");
    assert_eq!(tag.attrs, vec![(s("a"), s("1"))]);
    assert!(tag.rewrite.is_none());
    assert!(tag.allowed_attributes.is_empty());
    assert!(!tag.ignore_self);
    assert!(!tag.ignore_contents);
}

#[test]
fn tag_mutators_record_the_ruling() {
    let mut tag = Tag::from_name_and_attrs(s("div"), vec![]);
    tag.allow_attribute(s("a"));
    tag.allow_attributes(&[s("b"), s("c")]);
    assert_eq!(tag.allowed_attributes, vec![s("a"), s("b"), s("c")]);
    tag.ignore_self();
    assert!(tag.ignore_self && !tag.ignore_contents);
    tag.ignore_self_and_contents();
    assert!(tag.ignore_self && tag.ignore_contents);
    tag.rewrite_as(s("X"));
    assert_eq!(tag.rewrite, Some(s("X")));
}

#[test]
fn empty_rule_table_acts_like_noop() {
    let mut tag = Tag::from_name_and_attrs(s("div"), vec![]);
    let policy = RulePolicy { rules: vec![] };
    policy.decide(&mut tag);
    assert!(tag.rewrite.is_none());
    assert!(tag.allowed_attributes.is_empty());
    assert!(!tag.ignore_self && !tag.ignore_contents);
}

#[test]
fn image_with_source_becomes_link() {
    let mut t = Tree::new();
    doc_with_element("img", &[("src", "http://x.com/pics/cat.png")], vec![], &mut t);
    assert_eq!(
        t.walk(&ImageLinkPolicy),
        "<a href=\"http://x.com/pics/cat.png\">cat.png</a>"
    );
}

#[test]
fn image_source_without_slash_gets_label() {
    let mut t = Tree::new();
    doc_with_element("img", &[("alt", "z"), ("src", "xyz")], vec![], &mut t);
    assert_eq!(t.walk(&ImageLinkPolicy), "<a href=\"xyz\">Load image</a>");
}

#[test]
fn image_source_ending_in_slash_gets_empty_name() {
    let mut t = Tree::new();
    doc_with_element("img", &[("src", "http://x.com/")], vec![], &mut t);
    assert_eq!(t.walk(&ImageLinkPolicy), "<a href=\"http://x.com/\"></a>");
}

#[test]
fn image_without_source_is_kept_bare() {
    let mut t = Tree::new();
    doc_with_element("img", &[("class", "x")], vec![], &mut t);
    assert_eq!(t.walk(&ImageLinkPolicy), "<img></img>");
}

#[test]
fn image_uses_first_source_attribute() {
    let mut t = Tree::new();
    doc_with_element("img", &[("src", "a/b"), ("src", "c/d")], vec![], &mut t);
    assert_eq!(t.walk(&ImageLinkPolicy), "<a href=\"a/b\">b</a>");
}

#[test]
fn links_keep_href_only() {
    let mut t = Tree::new();
    let text = push(&mut t, Node::Text { content: s("here") });
    doc_with_element("a", &[("href", "u"), ("target", "_blank")], vec![text], &mut t);
    assert_eq!(t.walk(&ImageLinkPolicy), "<a href=\"u\">here</a>");
}

#[test]
fn scripts_and_styles_vanish_wholly() {
    let mut t = Tree::new();
    let code = push(&mut t, Node::Text { content: s("alert(1)") });
    let script = push(&mut t, Node::Element { name: s("script"), attrs: vec![], children: vec![code] });
    let css = push(&mut t, Node::Text { content: s("p{}") });
    let style = push(&mut t, Node::Element { name: s("style"), attrs: vec![], children: vec![css] });
    let hi = push(&mut t, Node::Text { content: s("Hi") });
    let p = push(&mut t, Node::Element { name: s("p"), attrs: vec![], children: vec![hi] });
    let body = push(&mut t, Node::Element { name: s("body"), attrs: vec![], children: vec![script, style, p] });
    push(&mut t, Node::Document { children: vec![body] });
    assert_eq!(t.walk(&ImageLinkPolicy), "<p>Hi</p>");
}

#[test]
fn other_elements_keep_style_attribute() {
    let mut t = Tree::new();
    doc_with_element("span", &[("style", "color:blue"), ("id", "s1")], vec![], &mut t);
    assert_eq!(t.walk(&ImageLinkPolicy), "<span style=\"color:blue\"></span>");
}
