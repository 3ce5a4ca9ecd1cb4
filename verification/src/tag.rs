//! The per-element decision object handed to a policy.

use vstd::prelude::*;

verus! {

/// The ruling a policy has expressed on one element, as a mathematical
/// value: the optional replacement text, the allowed attribute names in
/// the order they were allowed, and the two suppression flags.
#[verifier::ext_equal]
pub ghost struct Decision {
    /// Replacement text for the whole subtree, if any.
    pub rewrite: Option<Seq<char>>,
    /// Attribute names the policy has allowed, in order.
    pub allowed: Seq<Seq<char>>,
    /// Omit the element's own opening and closing tag markup.
    pub ignore_self: bool,
    /// Never serialize the element's children.
    pub ignore_contents: bool,
}

impl Decision {
    /// The decision before a policy has ruled: keep the tag, strip every
    /// attribute, keep the contents.
    pub open spec fn fresh() -> Decision {
        Decision { rewrite: None, allowed: Seq::empty(), ignore_self: false, ignore_contents: false }
    }
}

/// Represents a single HTML element during a walk.  A policy reads `name`
/// and `attrs` to see what it is ruling on and expresses the ruling through
/// the mutator methods.
///
/// By default every element is printed with all of its attributes stripped;
/// attributes survive only if allowed with [`Tag::allow_attribute`] or
/// [`Tag::allow_attributes`].
pub struct Tag {
    /// The name of the HTML tag, e.g. `div` or `img`.
    pub name: String,
    /// The attributes of the HTML tag as ordered key/value pairs,
    /// duplicates permitted, e.g. `("style", "width: 100%")`.
    pub attrs: Vec<(String, String)>,
    /// Replacement text for this element and its subtree, if the policy
    /// chose to rewrite it.
    pub rewrite: Option<String>,
    /// The attribute names the policy has allowed so far, in order.
    pub allowed_attributes: Vec<String>,
    /// Omit this element's own tag markup.
    pub ignore_self: bool,
    /// Never serialize this element's children.
    pub ignore_contents: bool,
}

/// The decision currently recorded in a `Tag`.
pub open spec fn decision_of(t: Tag) -> Decision {
    Decision {
        rewrite: match t.rewrite {
            Some(s) => Some(s@),
            None => None,
        },
        allowed: t.allowed_attributes.deep_view(),
        ignore_self: t.ignore_self,
        ignore_contents: t.ignore_contents,
    }
}

impl Tag {
    /// Build a fresh decision object for an element with the given name
    /// and attribute pairs.
    pub fn from_name_and_attrs(name: String, attrs: Vec<(String, String)>) -> (t: Tag)
        ensures
            t.name == name,
            t.attrs == attrs,
            decision_of(t) == Decision::fresh(),
    {
        let t = Tag {
            name,
            attrs,
            rewrite: None,
            allowed_attributes: Vec::new(),
            ignore_self: false,
            ignore_contents: false,
        };
        proof {
            assert(t.allowed_attributes.deep_view() =~= Seq::<Seq<char>>::empty());
            assert(decision_of(t) =~= Decision::fresh());
        }
        t
    }

    /// Allow the given attribute.  The attribute does not have to exist in
    /// `attrs`; when the element is printed, only attributes whose key was
    /// allowed are printed with it.
    pub fn allow_attribute(&mut self, attr: String)
        ensures
            final(self).name == old(self).name,
            final(self).attrs == old(self).attrs,
            decision_of(*final(self)) == (Decision {
                allowed: decision_of(*old(self)).allowed.push(attr@),
                ..decision_of(*old(self))
            }),
    {
        let ghost before = self.allowed_attributes.deep_view();
        self.allowed_attributes.push(attr);
        proof {
            assert(self.allowed_attributes.deep_view() =~= before.push(self.allowed_attributes@.last()@));
            assert(decision_of(*self) =~= (Decision {
                allowed: decision_of(*old(self)).allowed.push(self.allowed_attributes@.last()@),
                ..decision_of(*old(self))
            }));
        }
    }

    /// Allow each of the given attributes, in order.  They do not have to
    /// exist in `attrs`.
    pub fn allow_attributes(&mut self, attr: &[String])
        ensures
            final(self).name == old(self).name,
            final(self).attrs == old(self).attrs,
            decision_of(*final(self)) == (Decision {
                allowed: decision_of(*old(self)).allowed + attr.deep_view(),
                ..decision_of(*old(self))
            }),
    {
        let n = attr.len();
        let mut k: usize = 0;
        while k < n
            invariant
                k <= n,
                n == attr@.len(),
                self.name == old(self).name,
                self.attrs == old(self).attrs,
                decision_of(*self) == (Decision {
                    allowed: decision_of(*old(self)).allowed + attr.deep_view().take(k as int),
                    ..decision_of(*old(self))
                }),
            decreases n - k,
        {
            let a = attr[k].clone();
            self.allow_attribute(a);
            proof {
                assert(decision_of(*old(self)).allowed + attr.deep_view().take(k as int)
                    + seq![attr.deep_view()[k as int]]
                    =~= decision_of(*old(self)).allowed + attr.deep_view().take(k as int + 1));
                assert(decision_of(*self) =~= (Decision {
                    allowed: decision_of(*old(self)).allowed + attr.deep_view().take(k as int + 1),
                    ..decision_of(*old(self))
                }));
            }
            k += 1;
        }
        proof {
            assert(attr.deep_view().take(n as int) =~= attr.deep_view());
            assert(decision_of(*self) =~= (Decision {
                allowed: decision_of(*old(self)).allowed + attr.deep_view(),
                ..decision_of(*old(self))
            }));
        }
    }

    /// Ignore this tag and its contents: neither the element's markup nor
    /// any of its children appear in the output.
    pub fn ignore_self_and_contents(&mut self)
        ensures
            final(self).name == old(self).name,
            final(self).attrs == old(self).attrs,
            decision_of(*final(self)) == (Decision {
                ignore_self: true,
                ignore_contents: true,
                ..decision_of(*old(self))
            }),
    {
        self.ignore_self = true;
        self.ignore_contents = true;
        proof {
            assert(decision_of(*self) =~= (Decision {
                ignore_self: true,
                ignore_contents: true,
                ..decision_of(*old(self))
            }));
        }
    }

    /// Ignore this tag's own markup but still serialize its children and
    /// text content.
    pub fn ignore_self(&mut self)
        ensures
            final(self).name == old(self).name,
            final(self).attrs == old(self).attrs,
            decision_of(*final(self)) == (Decision {
                ignore_self: true,
                ..decision_of(*old(self))
            }),
    {
        self.ignore_self = true;
        proof {
            assert(decision_of(*self) =~= (Decision { ignore_self: true, ..decision_of(*old(self)) }));
        }
    }

    /// Completely rewrite this tag and all its children, replacing them in
    /// the output by the given string, verbatim.
    pub fn rewrite_as(&mut self, new_contents: String)
        ensures
            final(self).name == old(self).name,
            final(self).attrs == old(self).attrs,
            decision_of(*final(self)) == (Decision {
                rewrite: Some(new_contents@),
                ..decision_of(*old(self))
            }),
    {
        self.rewrite = Some(new_contents);
        proof {
            assert(decision_of(*self) =~= (Decision {
                rewrite: Some(new_contents@),
                ..decision_of(*old(self))
            }));
        }
    }
}

} // verus!
