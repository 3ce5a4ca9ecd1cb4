//! Policies: the caller-supplied logic that rules on each element.

use vstd::prelude::*;
use vstd::string::*;

use crate::tag::{decision_of, Decision, Tag};
use crate::text::str_eq;

verus! {

/// A sanitization policy.  The walker builds a fresh [`Tag`] for every
/// element it meets and invokes [`Policy::decide`] on it exactly once;
/// the policy expresses its ruling purely through the `Tag` mutators.
///
/// A policy's ruling is a function of the element's name and attributes
/// alone, captured by [`Policy::spec_decide`]; decisions for one element
/// therefore never affect those of its siblings or ancestors.
pub trait Policy {
    /// The decision this policy makes for an element with the given name
    /// and attribute pairs.
    spec fn spec_decide(&self, name: Seq<char>, attrs: Seq<(Seq<char>, Seq<char>)>) -> Decision;

    /// Rule on one element: read `tag.name` and `tag.attrs`, and record
    /// the ruling through the mutators of `tag`.
    fn decide(&self, tag: &mut Tag)
        requires
            decision_of(*old(tag)) == Decision::fresh(),
        ensures
            final(tag).name@ == old(tag).name@,
            final(tag).attrs.deep_view() == old(tag).attrs.deep_view(),
            decision_of(*final(tag)) == self.spec_decide(
                old(tag).name@,
                old(tag).attrs.deep_view(),
            ),
    ;
}

/// The policy that makes no decisions: every element and text node
/// survives, every attribute is stripped (the default-deny baseline).
pub struct NoopPolicy;

impl Policy for NoopPolicy {
    open spec fn spec_decide(&self, name: Seq<char>, attrs: Seq<(Seq<char>, Seq<char>)>) -> Decision {
        Decision::fresh()
    }

    fn decide(&self, tag: &mut Tag) {
    }
}

/// One ruling a [`RulePolicy`] can apply to a matching element.
pub enum Action {
    /// Allow the named attribute.
    AllowAttribute(String),
    /// Omit the element's own tag markup but keep its contents.
    IgnoreSelf,
    /// Omit the element's markup and never serialize its children.
    IgnoreSelfAndContents,
    /// Replace the element and its whole subtree by the given text.
    RewriteAs(String),
}

/// A rule: a tag name and the actions applied, in order, to elements of
/// that name.
pub struct Rule {
    /// The tag name the rule matches.
    pub tag: String,
    /// The actions applied to a matching element, in order.
    pub actions: Vec<Action>,
}

/// A table-driven policy: for each element, the first rule whose tag name
/// equals the element's name is applied, action by action; elements with
/// no matching rule are left at the fresh decision.
pub struct RulePolicy {
    /// The rule table, searched front to back.
    pub rules: Vec<Rule>,
}

/// The decision `d` after one action.
pub open spec fn apply_action(d: Decision, a: Action) -> Decision {
    match a {
        Action::AllowAttribute(s) => (Decision { allowed: d.allowed.push(s@), ..d }),
        Action::IgnoreSelf => (Decision { ignore_self: true, ..d }),
        Action::IgnoreSelfAndContents => (Decision {
            ignore_self: true,
            ignore_contents: true,
            ..d
        }),
        Action::RewriteAs(s) => (Decision { rewrite: Some(s@), ..d }),
    }
}

/// The decision after applying the first `k` of the given actions to `d`.
pub open spec fn apply_actions(d: Decision, acts: Seq<Action>, k: int) -> Decision
    decreases k,
{
    if k <= 0 || k > acts.len() {
        d
    } else {
        apply_action(apply_actions(d, acts, k - 1), acts[k - 1])
    }
}

/// The decision of a rule table for an element name: that of the first
/// matching rule, or the fresh decision when none matches.
pub open spec fn table_decision(rules: Seq<Rule>, name: Seq<char>) -> Decision
    decreases rules.len(),
{
    if rules.len() == 0 {
        Decision::fresh()
    } else if rules[0].tag@ == name {
        apply_actions(Decision::fresh(), rules[0].actions@, rules[0].actions@.len() as int)
    } else {
        table_decision(rules.drop_first(), name)
    }
}

/// Rules before the first match do not affect the table's decision.
proof fn lemma_table_decision_skip(rules: Seq<Rule>, name: Seq<char>, j: int)
    requires
        0 <= j <= rules.len(),
        forall|m: int| 0 <= m < j ==> (#[trigger] rules[m].tag)@ != name,
    ensures
        table_decision(rules, name) == table_decision(rules.skip(j), name),
    decreases j,
{
    if j > 0 {
        let t = rules.drop_first();
        assert(rules[0].tag@ != name);
        assert(forall|m: int| 0 <= m < j - 1 ==> t[m] == rules[m + 1] && (#[trigger] t[m].tag)@
            != name);
        lemma_table_decision_skip(t, name, j - 1);
        assert(t.skip(j - 1) =~= rules.skip(j));
    } else {
        assert(rules.skip(0) =~= rules);
    }
}

impl Policy for RulePolicy {
    open spec fn spec_decide(&self, name: Seq<char>, attrs: Seq<(Seq<char>, Seq<char>)>) -> Decision {
        table_decision(self.rules@, name)
    }

    fn decide(&self, tag: &mut Tag) {
        let nr = self.rules.len();
        let mut j: usize = 0;
        while j < nr
            invariant
                j <= nr,
                nr == self.rules@.len(),
                *tag == *old(tag),
                decision_of(*old(tag)) == Decision::fresh(),
                forall|m: int| 0 <= m < j ==> (#[trigger] self.rules@[m].tag)@ != old(tag).name@,
            decreases nr - j,
        {
            if str_eq(self.rules[j].tag.as_str(), tag.name.as_str()) {
                proof {
                    lemma_table_decision_skip(self.rules@, tag.name@, j as int);
                    assert(self.rules@.skip(j as int)[0] == self.rules@[j as int]);
                }
                let acts = &self.rules[j].actions;
                let na = acts.len();
                let mut k: usize = 0;
                while k < na
                    invariant
                        k <= na,
                        na == acts@.len(),
                        acts@ == self.rules@[j as int].actions@,
                        tag.name == old(tag).name,
                        tag.attrs == old(tag).attrs,
                        decision_of(*tag) == apply_actions(Decision::fresh(), acts@, k as int),
                    decreases na - k,
                {
                    match &acts[k] {
                        Action::AllowAttribute(s) => {
                            tag.allow_attribute(s.clone());
                        },
                        Action::IgnoreSelf => {
                            tag.ignore_self();
                        },
                        Action::IgnoreSelfAndContents => {
                            tag.ignore_self_and_contents();
                        },
                        Action::RewriteAs(s) => {
                            tag.rewrite_as(s.clone());
                        },
                    }
                    proof {
                        assert(decision_of(*tag) =~= apply_actions(
                            Decision::fresh(),
                            acts@,
                            k as int + 1,
                        ));
                    }
                    k += 1;
                }
                return ;
            }
            j += 1;
        }
        proof {
            lemma_table_decision_skip(self.rules@, tag.name@, nr as int);
            assert(self.rules@.skip(nr as int).len() == 0);
        }
    }
}

/// The value of the first attribute with the given key, if any.
pub open spec fn find_attr(attrs: Seq<(Seq<char>, Seq<char>)>, key: Seq<char>) -> Option<Seq<char>>
    decreases attrs.len(),
{
    if attrs.len() == 0 {
        None
    } else if attrs[0].0 == key {
        Some(attrs[0].1)
    } else {
        find_attr(attrs.drop_first(), key)
    }
}

/// Whether the sequence holds a `/` character.
pub open spec fn has_slash(s: Seq<char>) -> bool {
    exists|m: int| 0 <= m < s.len() && s[m] == '/'
}

/// What follows the last `/` of the sequence; the whole sequence when
/// there is none.
pub open spec fn after_last_slash(s: Seq<char>) -> Seq<char>
    decreases s.len(),
{
    if s.len() == 0 {
        Seq::empty()
    } else if s[s.len() - 1] == '/' {
        Seq::empty()
    } else {
        after_last_slash(s.drop_last()) + seq![s[s.len() - 1]]
    }
}

/// The text of a rewritten image link: the file name after the last `/`
/// of the URL, or a fixed label when the URL has no `/`.
pub open spec fn link_text(url: Seq<char>) -> Seq<char> {
    if has_slash(url) {
        after_last_slash(url)
    } else {
        "Load image"@
    }
}

/// The replacement markup for an image: a link to its URL whose text is
/// [`link_text`].
pub open spec fn link_markup(url: Seq<char>) -> Seq<char> {
    "<a href=\""@ + url + "\">"@ + link_text(url) + "</a>"@
}

/// `find_attr` returns the value at the first position whose key matches.
proof fn lemma_find_attr_at(attrs: Seq<(Seq<char>, Seq<char>)>, key: Seq<char>, k: int)
    requires
        0 <= k < attrs.len(),
        attrs[k].0 == key,
        forall|m: int| 0 <= m < k ==> (#[trigger] attrs[m]).0 != key,
    ensures
        find_attr(attrs, key) == Some(attrs[k].1),
    decreases k,
{
    if k > 0 {
        let t = attrs.drop_first();
        assert(attrs[0].0 != key);
        assert(forall|m: int| 0 <= m < k - 1 ==> t[m] == attrs[m + 1] && (#[trigger] t[m]).0
            != key);
        lemma_find_attr_at(t, key, k - 1);
    }
}

/// `find_attr` finds nothing when no key matches.
proof fn lemma_find_attr_none(attrs: Seq<(Seq<char>, Seq<char>)>, key: Seq<char>)
    requires
        forall|m: int| 0 <= m < attrs.len() ==> (#[trigger] attrs[m]).0 != key,
    ensures
        find_attr(attrs, key) is None,
    decreases attrs.len(),
{
    if attrs.len() > 0 {
        let t = attrs.drop_first();
        assert(forall|m: int| 0 <= m < t.len() ==> t[m] == attrs[m + 1] && (#[trigger] t[m]).0
            != key);
        lemma_find_attr_none(t, key);
    }
}

/// What comes after the last slash is the tail that follows it.
proof fn lemma_after_last_slash_subrange(s: Seq<char>, i: int)
    requires
        0 <= i < s.len(),
        s[i] == '/',
        forall|m: int| i < m < s.len() ==> s[m] != '/',
    ensures
        after_last_slash(s) == s.subrange(i + 1, s.len() as int),
    decreases s.len(),
{
    if i == s.len() - 1 {
        assert(s.subrange(i + 1, s.len() as int) =~= Seq::<char>::empty());
    } else {
        assert(s[s.len() - 1] != '/');
        let t = s.drop_last();
        assert(forall|m: int| i < m < t.len() ==> t[m] == s[m] && #[trigger] t[m] != '/');
        lemma_after_last_slash_subrange(t, i);
        assert(s.subrange(i + 1, s.len() as int) =~= t.subrange(i + 1, t.len() as int) + seq![
            s[s.len() - 1],
        ]);
    }
}

/// Build the replacement markup for an image whose source is `url`.
fn build_image_link(url: &String) -> (r: String)
    ensures
        r@ == link_markup(url@),
{
    let n = url.as_str().unicode_len();
    let mut j: usize = n;
    loop
        invariant
            j <= n,
            n == url@.len(),
            forall|m: int| j <= m < n ==> url@[m] != '/',
        ensures
            j <= n,
            forall|m: int| j <= m < n ==> url@[m] != '/',
            j == 0 || url@[j - 1] == '/',
        decreases j,
    {
        if j == 0 {
            break ;
        }
        if url.as_str().get_char(j - 1) == '/' {
            break ;
        }
        j -= 1;
    }
    let mut out = String::from_str("<a href=\"");
    out.append(url.as_str());
    out.append("\">");
    if j == 0 {
        proof {
            assert(forall|m: int| 0 <= m < url@.len() ==> url@[m] != '/');
            assert(!has_slash(url@));
        }
        out.append("Load image");
    } else {
        proof {
            assert(url@[j as int - 1] == '/');
            assert(has_slash(url@));
            lemma_after_last_slash_subrange(url@, j as int - 1);
        }
        let tail = url.as_str().substring_char(j, n);
        out.append(tail);
    }
    out.append("</a>");
    proof {
        assert(out@ =~= link_markup(url@));
    }
    out
}

/// The sample policy of the crate documentation: unwrap `html` and
/// `body`, drop `head`, `script` and `style` with their contents, keep
/// `href` on links, rewrite each image carrying a `src` as a link to that
/// source (the file name as the link text), and allow `style` on every
/// other element.
pub struct ImageLinkPolicy;

impl Policy for ImageLinkPolicy {
    open spec fn spec_decide(&self, name: Seq<char>, attrs: Seq<(Seq<char>, Seq<char>)>) -> Decision {
        if name == "html"@ || name == "body"@ {
            (Decision { ignore_self: true, ..Decision::fresh() })
        } else if name == "head"@ || name == "script"@ || name == "style"@ {
            (Decision { ignore_self: true, ignore_contents: true, ..Decision::fresh() })
        } else if name == "a"@ {
            (Decision { allowed: seq!["href"@], ..Decision::fresh() })
        } else if name == "img"@ {
            match find_attr(attrs, "src"@) {
                Some(url) => (Decision { rewrite: Some(link_markup(url)), ..Decision::fresh() }),
                None => Decision::fresh(),
            }
        } else {
            (Decision { allowed: seq!["style"@], ..Decision::fresh() })
        }
    }

    #[verifier::loop_isolation(false)]
    fn decide(&self, tag: &mut Tag) {
        if str_eq(tag.name.as_str(), "html") || str_eq(tag.name.as_str(), "body") {
            tag.ignore_self();
        } else if str_eq(tag.name.as_str(), "head") || str_eq(tag.name.as_str(), "script")
            || str_eq(tag.name.as_str(), "style") {
            tag.ignore_self_and_contents();
        } else if str_eq(tag.name.as_str(), "a") {
            tag.allow_attribute(String::from_str("href"));
            proof {
                assert(decision_of(*tag).allowed =~= seq!["href"@]);
            }
        } else if str_eq(tag.name.as_str(), "img") {
            let n = tag.attrs.len();
            let mut k: usize = 0;
            while k < n
                invariant
                    k <= n,
                    n == tag.attrs@.len(),
                    *tag == *old(tag),
                    decision_of(*old(tag)) == Decision::fresh(),
                    old(tag).name@ == "img"@,
                    forall|m: int| 0 <= m < k ==> (#[trigger] tag.attrs.deep_view()[m]).0
                        != "src"@,
                decreases n - k,
            {
                proof {
                    assert(tag.attrs.deep_view()[k as int] == (
                        tag.attrs@[k as int].0@,
                        tag.attrs@[k as int].1@,
                    ));
                }
                if str_eq(tag.attrs[k].0.as_str(), "src") {
                    proof {
                        lemma_find_attr_at(tag.attrs.deep_view(), "src"@, k as int);
                    }
                    let url = tag.attrs[k].1.clone();
                    let markup = build_image_link(&url);
                    tag.rewrite_as(markup);
                    return ;
                }
                k += 1;
            }
            proof {
                lemma_find_attr_none(tag.attrs.deep_view(), "src"@);
            }
        } else {
            tag.allow_attribute(String::from_str("style"));
            proof {
                assert(decision_of(*tag).allowed =~= seq!["style"@]);
            }
        }
    }
}

} // verus!
