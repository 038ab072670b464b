//! The tagged node variants an HTML tree is made of.

use vstd::prelude::*;
use crate::strutil::str_eq;

verus! {

/// Document-wide legacy-compatibility flag, set once while the tree is built.
#[derive(Clone, Copy, PartialEq, Eq, Structural, Debug)]
pub enum QuirksMode {
    NoQuirks,
    LimitedQuirks,
    Quirks,
}

/// A single `name="value"` pair on an element.
#[derive(Debug)]
pub struct Attribute {
    pub name: String,
    pub value: String,
}

/// The data an element node carries: its tag name and its attributes.
#[derive(Debug)]
pub struct ElementData {
    pub name: String,
    pub attrs: Vec<Attribute>,
}

/// First value bound to `name` in `attrs`, if any.
pub open spec fn attr_lookup(attrs: Seq<Attribute>, name: Seq<char>) -> Option<Seq<char>>
    decreases attrs.len(),
{
    if attrs.len() == 0 {
        Option::None
    } else if attrs[0].name@ == name {
        Option::Some(attrs[0].value@)
    } else {
        attr_lookup(attrs.drop_first(), name)
    }
}

impl ElementData {
    /// The value of the attribute called `name`, if the element has one.
    pub open spec fn attr_spec(&self, name: Seq<char>) -> Option<Seq<char>> {
        attr_lookup(self.attrs@, name)
    }

    /// Returns the value of an attribute.
    pub fn attr(&self, name: &str) -> (r: Option<&str>)
        ensures
            match r {
                Option::Some(v) => self.attr_spec(name@) == Option::Some(v@),
                Option::None => self.attr_spec(name@) is None,
            },
    {
        let n = self.attrs.len();
        proof {
            assert(self.attrs@.skip(0) =~= self.attrs@);
        }
        for i in 0..n
            invariant
                n == self.attrs.len(),
                attr_lookup(self.attrs@, name@) == attr_lookup(self.attrs@.skip(i as int), name@),
        {
            proof {
                assert(self.attrs@.skip(i as int)[0] == self.attrs@[i as int]);
            }
            if str_eq(self.attrs[i].name.as_str(), name) {
                return Option::Some(self.attrs[i].value.as_str());
            }
            proof {
                assert(self.attrs@.skip(i as int).drop_first() =~= self.attrs@.skip(i + 1));
            }
        }
        proof {
            assert(self.attrs@.skip(n as int).len() == 0);
        }
        Option::None
    }
}

/// An attribute list with later duplicates of a name dropped: as in HTML
/// parsing, the first occurrence wins.
pub open spec fn dedup_attrs(attrs: Seq<Attribute>) -> Seq<Attribute>
    decreases attrs.len(),
{
    if attrs.len() == 0 {
        Seq::empty()
    } else {
        let pre = dedup_attrs(attrs.drop_last());
        if attr_lookup(attrs.drop_last(), attrs.last().name@) is Some {
            pre
        } else {
            pre.push(attrs.last())
        }
    }
}

/// Checks whether `name` occurs among the first `i` attributes.
pub fn name_in_prefix(attrs: &Vec<Attribute>, i: usize, name: &str) -> (r: bool)
    requires
        i <= attrs@.len(),
    ensures
        r == (attr_lookup(attrs@.take(i as int), name@) is Some),
{
    proof {
        assert(attrs@.take(i as int).skip(0) =~= attrs@.take(i as int));
    }
    for j in 0..i
        invariant
            i <= attrs@.len(),
            (attr_lookup(attrs@.take(i as int), name@) is Some) == (attr_lookup(
                attrs@.take(i as int).skip(j as int),
                name@,
            ) is Some),
    {
        proof {
            assert(attrs@.take(i as int).skip(j as int)[0] == attrs@[j as int]);
        }
        if str_eq(attrs[j].name.as_str(), name) {
            return true;
        }
        proof {
            assert(attrs@.take(i as int).skip(j as int).drop_first() =~= attrs@.take(
                i as int,
            ).skip(j + 1));
        }
    }
    proof {
        assert(attrs@.take(i as int).skip(i as int).len() == 0);
    }
    false
}

/// A node of the tree: exactly one of the closed set of variants.
#[derive(Debug)]
pub enum Node {
    Document,
    Fragment,
    Doctype { name: String, public_id: String, system_id: String },
    Comment { text: String },
    Text { text: String },
    Element(ElementData),
    ProcessingInstruction { target: String, data: String },
}

impl Node {
    /// True exactly of the `Element` variant.
    pub open spec fn is_element_spec(&self) -> bool {
        self is Element
    }

    /// Checks whether this node is an element.
    pub fn is_element(&self) -> (r: bool)
        ensures
            r == self.is_element_spec(),
    {
        match self {
            Node::Element(_) => true,
            _ => false,
        }
    }

    /// The element data, where this node is an element.
    pub open spec fn as_element_spec(&self) -> Option<&ElementData> {
        match self {
            Node::Element(e) => Option::Some(e),
            _ => Option::None,
        }
    }

    /// Narrows this node to its element data, if it is an element.
    pub fn as_element(&self) -> (r: Option<&ElementData>)
        ensures
            r == self.as_element_spec(),
            r is Some <==> self is Element,
    {
        match self {
            Node::Element(e) => Option::Some(e),
            _ => Option::None,
        }
    }

    /// The characters a text node holds (empty for any other variant).
    pub open spec fn text_spec(&self) -> Seq<char> {
        match self {
            Node::Text { text } => text@,
            _ => Seq::empty(),
        }
    }
}

} // verus!
