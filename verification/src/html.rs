//! HTML documents and fragments: the tree wrapper and the event sink that
//! builds it.
//!
//! Parsing never fails hard: a parse driver reports defects through
//! `parse_error`, quirks mode is recorded once, and the tree is still built
//! as well as the input allows.

use vstd::prelude::*;
use crate::element_ref::ElementRef;
use crate::node::{dedup_attrs, name_in_prefix, Attribute, ElementData, Node, QuirksMode};
use crate::selector::{matching_upto, matches_node, Selector};
use crate::selector::lemma_matching_upto_sub;
use crate::ser::{auto_decoded, encode_normalize, ser_node_exec};
use crate::strutil::str_eq;
use crate::tree::{lemma_detached_unreachable, lemma_subtree_desc, Tree};

verus! {

/// An HTML tree with its quirks mode, language and parse-defect log.
#[derive(Debug)]
pub struct Html {
    /// The quirks mode, set once while the tree is built.
    pub quirks_mode: QuirksMode,
    /// The node tree; slot 0 is the document or fragment root.
    pub tree: Tree,
    /// The document language; empty until set or derived.
    pub lang: String,
    /// Parse defects, in the order they were reported.
    pub errors: Vec<String>,
}

impl Html {
    /// A well-formed document: a well-formed tree rooted in a document or
    /// fragment node.
    pub open spec fn wf(self) -> bool {
        &&& self.tree.wf()
        &&& (self.tree.val(0) is Document || self.tree.val(0) is Fragment)
    }

    /// Creates an empty HTML document.
    pub fn new_document() -> (r: Html)
        ensures
            r.wf(),
            r.tree.len() == 1,
            r.tree.val(0) is Document,
            r.tree.kids(0) =~= Seq::<usize>::empty(),
            r.quirks_mode == QuirksMode::NoQuirks,
            r.lang@ == Seq::<char>::empty(),
            r.errors@ == Seq::<String>::empty(),
    {
        Html {
            quirks_mode: QuirksMode::NoQuirks,
            tree: Tree::new(Node::Document),
            lang: String::new(),
            errors: Vec::new(),
        }
    }

    /// Creates an empty HTML fragment.
    pub fn new_fragment() -> (r: Html)
        ensures
            r.wf(),
            r.tree.len() == 1,
            r.tree.val(0) is Fragment,
            r.tree.kids(0) =~= Seq::<usize>::empty(),
            r.quirks_mode == QuirksMode::NoQuirks,
            r.lang@ == Seq::<char>::empty(),
            r.errors@ == Seq::<String>::empty(),
    {
        Html {
            quirks_mode: QuirksMode::NoQuirks,
            tree: Tree::new(Node::Fragment),
            lang: String::new(),
            errors: Vec::new(),
        }
    }

    /// The metadata fields other than the tree are unchanged.
    pub open spec fn same_meta(self, other: Html) -> bool {
        &&& self.quirks_mode == other.quirks_mode
        &&& self.lang == other.lang
        &&& self.errors == other.errors
    }

    /// Allocates a fresh orphan element; duplicate attribute names are
    /// dropped, the first occurrence winning.
    pub fn create_element(&mut self, name: String, attrs: Vec<Attribute>) -> (id: usize)
        requires
            old(self).wf(),
            old(self).tree.len() < usize::MAX,
        ensures
            final(self).wf(),
            final(self).same_meta(*old(self)),
            id == old(self).tree.len(),
            final(self).tree.len() == old(self).tree.len() + 1,
            final(self).tree.parent_of(id as int) is None,
            final(self).tree.kids(id as int) =~= Seq::<usize>::empty(),
            (final(self).tree.val(id as int) matches Node::Element(ed) && ed.name@ == name@
                && ed.attrs@ == dedup_attrs(attrs@)),
            forall|i: int| 0 <= i < old(self).tree.len() ==> final(self).tree.val(i)
                == old(self).tree.val(i),
            forall|i: int| 0 <= i < old(self).tree.len() ==> final(self).tree.parent_of(i)
                == old(self).tree.parent_of(i),
            forall|i: int| 0 <= i < old(self).tree.len() ==> final(self).tree.kids(i)
                == old(self).tree.kids(i),
    {
        let mut clean: Vec<Attribute> = Vec::new();
        let n = attrs.len();
        for i in 0..n
            invariant
                n == attrs@.len(),
                clean@ == dedup_attrs(attrs@.take(i as int)),
        {
            proof {
                assert(attrs@.take(i + 1).drop_last() =~= attrs@.take(i as int));
                assert(attrs@.take(i + 1).last() == attrs@[i as int]);
            }
            if !name_in_prefix(&attrs, i, attrs[i].name.as_str()) {
                let a = Attribute {
                    name: attrs[i].name.clone(),
                    value: attrs[i].value.clone(),
                };
                proof {
                    assert(a == attrs@[i as int]);
                }
                clean.push(a);
            }
        }
        proof {
            assert(attrs@.take(n as int) =~= attrs@);
        }
        self.tree.new_orphan(Node::Element(ElementData { name, attrs: clean }))
    }

    /// Allocates a fresh orphan comment node.
    pub fn create_comment(&mut self, text: String) -> (id: usize)
        requires
            old(self).wf(),
            old(self).tree.len() < usize::MAX,
        ensures
            final(self).wf(),
            final(self).same_meta(*old(self)),
            id == old(self).tree.len(),
            final(self).tree.len() == old(self).tree.len() + 1,
            final(self).tree.parent_of(id as int) is None,
            final(self).tree.val(id as int) == (Node::Comment { text }),
            forall|i: int| 0 <= i < old(self).tree.len() ==> final(self).tree.val(i)
                == old(self).tree.val(i),
            forall|i: int| 0 <= i < old(self).tree.len() ==> final(self).tree.parent_of(i)
                == old(self).tree.parent_of(i),
            forall|i: int| 0 <= i < old(self).tree.len() ==> final(self).tree.kids(i)
                == old(self).tree.kids(i),
    {
        self.tree.new_orphan(Node::Comment { text })
    }

    /// Allocates a fresh orphan processing-instruction node.
    pub fn create_pi(&mut self, target: String, data: String) -> (id: usize)
        requires
            old(self).wf(),
            old(self).tree.len() < usize::MAX,
        ensures
            final(self).wf(),
            final(self).same_meta(*old(self)),
            id == old(self).tree.len(),
            final(self).tree.len() == old(self).tree.len() + 1,
            final(self).tree.parent_of(id as int) is None,
            final(self).tree.val(id as int) == (Node::ProcessingInstruction { target, data }),
            forall|i: int| 0 <= i < old(self).tree.len() ==> final(self).tree.val(i)
                == old(self).tree.val(i),
            forall|i: int| 0 <= i < old(self).tree.len() ==> final(self).tree.parent_of(i)
                == old(self).tree.parent_of(i),
            forall|i: int| 0 <= i < old(self).tree.len() ==> final(self).tree.kids(i)
                == old(self).tree.kids(i),
    {
        self.tree.new_orphan(Node::ProcessingInstruction { target, data })
    }

    /// Appends an already-allocated orphan node at the end of `parent`'s
    /// children, preserving document order.
    pub fn append_node(&mut self, parent: usize, child: usize)
        requires
            old(self).wf(),
            parent < child,
            child < old(self).tree.len(),
            old(self).tree.parent_of(child as int) is None,
        ensures
            final(self).wf(),
            final(self).same_meta(*old(self)),
            final(self).tree.len() == old(self).tree.len(),
            forall|i: int| 0 <= i < old(self).tree.len() ==> final(self).tree.val(i)
                == old(self).tree.val(i),
            final(self).tree.parent_of(child as int) == Option::Some(parent),
            forall|i: int| 0 <= i < old(self).tree.len() && i != child
                ==> final(self).tree.parent_of(i) == old(self).tree.parent_of(i),
            final(self).tree.kids(parent as int) == old(self).tree.kids(parent as int).push(child),
            forall|i: int| 0 <= i < old(self).tree.len() && i != parent
                ==> final(self).tree.kids(i) == old(self).tree.kids(i),
    {
        self.tree.attach(parent, child);
    }

    /// Appends text under `parent`: merged into the last child when that is
    /// already a text node, otherwise as a fresh text node, as conventional
    /// HTML tree building does.
    pub fn append_text(&mut self, parent: usize, text: String)
        requires
            old(self).wf(),
            parent < old(self).tree.len(),
            old(self).tree.len() < usize::MAX,
        ensures
            final(self).wf(),
            final(self).same_meta(*old(self)),
            ({
                let t0 = old(self).tree;
                let t1 = final(self).tree;
                let ks = t0.kids(parent as int);
                if ks.len() > 0 && t0.val(ks.last() as int) is Text {
                    &&& t1.len() == t0.len()
                    &&& t1.val(ks.last() as int) is Text
                    &&& t1.val(ks.last() as int).text_spec() == t0.val(
                        ks.last() as int,
                    ).text_spec() + text@
                    &&& forall|i: int| 0 <= i < t0.len() && i != ks.last() ==> t1.val(i)
                        == t0.val(i)
                    &&& forall|i: int| 0 <= i < t0.len() ==> t1.parent_of(i) == t0.parent_of(i)
                    &&& forall|i: int| 0 <= i < t0.len() ==> t1.kids(i) == t0.kids(i)
                } else {
                    &&& t1.len() == t0.len() + 1
                    &&& t1.val(t0.len()) == (Node::Text { text })
                    &&& t1.parent_of(t0.len()) == Option::Some(parent)
                    &&& t1.kids(parent as int) == t0.kids(parent as int).push(
                        t0.len() as usize,
                    )
                    &&& forall|i: int| 0 <= i < t0.len() ==> t1.val(i) == t0.val(i)
                    &&& forall|i: int| 0 <= i < t0.len() && i != parent ==> t1.kids(i) == t0.kids(
                        i,
                    )
                    &&& forall|i: int| 0 <= i < t0.len() ==> t1.parent_of(i) == t0.parent_of(i)
                }
            }),
    {
        let ks_len = self.tree.childs[parent].len();
        if ks_len > 0 {
            let last = self.tree.childs[parent][ks_len - 1];
            proof {
                assert(self.tree.wf_at(parent as int));
                assert(self.tree.kids(parent as int)[ks_len - 1]
                    == self.tree.kids(parent as int).last());
            }
            let mut merged: Option<String> = Option::None;
            match &self.tree.vals[last] {
                Node::Text { text: prior } => {
                    let mut m = prior.clone();
                    m.append(text.as_str());
                    merged = Option::Some(m);
                },
                _ => {},
            }
            match merged {
                Option::Some(m) => {
                    self.tree.set_val(last, Node::Text { text: m });
                    return;
                },
                Option::None => {},
            }
        }
        let id = self.tree.new_orphan(Node::Text { text });
        self.tree.attach(parent, id);
    }

    /// Inserts an already-allocated orphan node immediately before a sibling.
    pub fn insert_node_before(&mut self, sibling: usize, child: usize)
        requires
            old(self).wf(),
            sibling < old(self).tree.len(),
            child < old(self).tree.len(),
            old(self).tree.parent_of(sibling as int) is Some,
            old(self).tree.parent_of(sibling as int)->Some_0 < child,
            old(self).tree.parent_of(child as int) is None,
        ensures
            final(self).wf(),
            final(self).same_meta(*old(self)),
            final(self).tree.len() == old(self).tree.len(),
            forall|i: int| 0 <= i < old(self).tree.len() ==> final(self).tree.val(i)
                == old(self).tree.val(i),
            final(self).tree.parent_of(child as int) == old(self).tree.parent_of(sibling as int),
            forall|i: int| 0 <= i < old(self).tree.len() && i != child
                ==> final(self).tree.parent_of(i) == old(self).tree.parent_of(i),
            ({
                let p = old(self).tree.parent_of(sibling as int)->Some_0 as int;
                exists|j: int|
                    0 <= j < old(self).tree.kids(p).len() && old(self).tree.kids(p)[j] == sibling
                        && final(self).tree.kids(p) == old(self).tree.kids(p).insert(j, child)
            }),
            forall|i: int|
                0 <= i < old(self).tree.len() && i != old(self).tree.parent_of(
                    sibling as int,
                )->Some_0 ==> final(self).tree.kids(i) == old(self).tree.kids(i),
    {
        self.tree.insert_before(sibling, child);
    }

    /// Inserts text immediately before a sibling: merged into the previous
    /// sibling when that is a text node, otherwise as a fresh text node.
    #[verifier::rlimit(100)]
    pub fn insert_text_before(&mut self, sibling: usize, text: String)
        requires
            old(self).wf(),
            sibling < old(self).tree.len(),
            old(self).tree.parent_of(sibling as int) is Some,
            old(self).tree.len() < usize::MAX,
        ensures
            final(self).wf(),
            final(self).same_meta(*old(self)),
            ({
                let t0 = old(self).tree;
                let t1 = final(self).tree;
                let p = t0.parent_of(sibling as int)->Some_0 as int;
                exists|j: int|
                    0 <= j < t0.kids(p).len() && #[trigger] t0.kids(p)[j] == sibling && (if j > 0
                        && t0.val(
                        t0.kids(p)[j - 1] as int,
                    ) is Text {
                        let prev = t0.kids(p)[j - 1] as int;
                        &&& t1.len() == t0.len()
                        &&& t1.val(prev) is Text
                        &&& t1.val(prev).text_spec() == t0.val(prev).text_spec() + text@
                        &&& forall|i: int| 0 <= i < t0.len() && i != prev ==> t1.val(i) == t0.val(
                            i,
                        )
                        &&& forall|i: int| 0 <= i < t0.len() ==> t1.parent_of(i) == t0.parent_of(
                            i,
                        )
                        &&& forall|i: int| 0 <= i < t0.len() ==> t1.kids(i) == t0.kids(i)
                    } else {
                        &&& t1.len() == t0.len() + 1
                        &&& t1.val(t0.len()) == (Node::Text { text })
                        &&& t1.parent_of(t0.len()) == Option::Some(p as usize)
                        &&& t1.kids(p) == t0.kids(p).insert(j, t0.len() as usize)
                        &&& forall|i: int| 0 <= i < t0.len() ==> t1.val(i) == t0.val(i)
                        &&& forall|i: int| 0 <= i < t0.len() && i != p ==> t1.kids(i) == t0.kids(
                            i,
                        )
                        &&& forall|i: int| 0 <= i < t0.len() ==> t1.parent_of(i) == t0.parent_of(
                            i,
                        )
                    })
            }),
    {
        let p = match self.tree.parents[sibling] {
            Option::Some(p) => p,
            Option::None => { unreached() },
        };
        proof {
            assert(self.tree.wf_at(sibling as int));
            assert(self.tree.kids(p as int).contains(sibling));
        }
        let j = crate::tree::find_pos(&self.tree.childs[p], sibling);
        if j > 0 {
            let prev = self.tree.childs[p][j - 1];
            proof {
                assert(self.tree.wf_at(p as int));
            }
            let mut merged: Option<String> = Option::None;
            match &self.tree.vals[prev] {
                Node::Text { text: prior } => {
                    let mut m = prior.clone();
                    m.append(text.as_str());
                    merged = Option::Some(m);
                },
                _ => {},
            }
            match merged {
                Option::Some(m) => {
                    self.tree.set_val(prev, Node::Text { text: m });
                    proof {
                        let t0 = old(self).tree;
                        let pp = t0.parent_of(sibling as int)->Some_0 as int;
                        assert(pp == p);
                        assert(t0.kids(pp)[j as int] == sibling);
                        assert(t0.val(t0.kids(pp)[j - 1] as int) is Text);
                    }
                    return;
                },
                Option::None => {},
            }
        }
        let id = self.tree.new_orphan(Node::Text { text });
        self.tree.insert_before(sibling, id);
        proof {
            let t0 = old(self).tree;
            let t1 = final(self).tree;
            let pp = t0.parent_of(sibling as int)->Some_0 as int;
            assert(pp == p);
            let jj = choose|jj: int|
                0 <= jj < t0.kids(pp).len() && t0.kids(pp)[jj] == sibling && t1.kids(pp)
                    == t0.kids(pp).insert(jj, id);
            assert(t0.wf_at(pp));
            assert(jj == j);
            assert(t0.kids(pp)[j as int] == sibling);
            assert(!(j > 0 && t0.val(t0.kids(pp)[j - 1] as int) is Text));
        }
    }

    /// Records the quirks mode; the last report wins.
    pub fn set_quirks_mode(&mut self, mode: QuirksMode)
        ensures
            final(self).quirks_mode == mode,
            final(self).tree == old(self).tree,
            final(self).lang == old(self).lang,
            final(self).errors == old(self).errors,
    {
        self.quirks_mode = mode;
    }

    /// Records a non-fatal parse defect; building goes on.
    pub fn parse_error(&mut self, message: String)
        ensures
            final(self).errors@ == old(self).errors@.push(message),
            final(self).tree == old(self).tree,
            final(self).lang == old(self).lang,
            final(self).quirks_mode == old(self).quirks_mode,
    {
        self.errors.push(message);
    }

    /// Appends a doctype node at the end of the root's children.
    pub fn append_doctype(&mut self, name: String, public_id: String, system_id: String)
        requires
            old(self).wf(),
            old(self).tree.len() < usize::MAX,
        ensures
            final(self).wf(),
            final(self).same_meta(*old(self)),
            final(self).tree.len() == old(self).tree.len() + 1,
            final(self).tree.val(old(self).tree.len()) == (Node::Doctype {
                name,
                public_id,
                system_id,
            }),
            final(self).tree.parent_of(old(self).tree.len()) == Option::Some(0usize),
            final(self).tree.kids(0) == old(self).tree.kids(0).push(
                old(self).tree.len() as usize,
            ),
            forall|i: int| 0 <= i < old(self).tree.len() ==> final(self).tree.val(i)
                == old(self).tree.val(i),
            forall|i: int| 0 < i < old(self).tree.len() ==> final(self).tree.kids(i)
                == old(self).tree.kids(i),
            forall|i: int| 0 <= i < old(self).tree.len() ==> final(self).tree.parent_of(i)
                == old(self).tree.parent_of(i),
    {
        let id = self.tree.new_orphan(Node::Doctype { name, public_id, system_id });
        self.tree.attach(0, id);
    }

    /// Sets the document language; an explicit value always wins.
    pub fn set_language(&mut self, lang: String)
        ensures
            final(self).lang == lang,
            final(self).tree == old(self).tree,
            final(self).quirks_mode == old(self).quirks_mode,
            final(self).errors == old(self).errors,
    {
        self.lang = lang;
    }

    /// The handles the document-wide selection yields, in document order:
    /// every reachable non-root node whose element matches the selector with
    /// no scope.
    pub open spec fn doc_select_seq(self, sel: Selector) -> Seq<usize> {
        matching_upto(
            self.tree,
            sel,
            self.tree.subtree(0).drop_first(),
            Option::None,
            self.tree.subtree(0).len() - 1,
        )
    }

    /// Returns a fresh two-ended iterator over elements matching a selector,
    /// in document order.
    pub fn select(&self, selector: &Selector) -> (s: Select)
        requires
            self.wf(),
            selector.wf(),
        ensures
            s.ids@ == self.doc_select_seq(*selector),
            s.front == 0,
            s.back as int == s.ids@.len(),
    {
        let order = self.tree.subtree_vec(0);
        proof {
            lemma_subtree_desc(self.tree, 0);
        }
        let mut ids: Vec<usize> = Vec::new();
        let n = order.len();
        let ghost cand = self.tree.subtree(0).drop_first();
        for k in 1..n
            invariant
                self.wf(),
                selector.wf(),
                n == order@.len(),
                n >= 1,
                order@ == self.tree.subtree(0),
                cand == order@.drop_first(),
                forall|j: int| 0 <= j < order@.len() ==> #[trigger] order@[j] < self.tree.len(),
                ids@ == matching_upto(self.tree, *selector, cand, Option::None, k - 1),
        {
            let id = order[k];
            if matches_node(&self.tree, selector, id, Option::None) {
                ids.push(id);
            }
            proof {
                assert(cand[k - 1] == order@[k as int]);
                assert(ids@ =~= matching_upto(self.tree, *selector, cand, Option::None, k as int));
            }
        }
        let b = ids.len();
        Select { ids, front: 0, back: b }
    }

    /// The first element child of the root, skipping any doctype or comment
    /// children before it.
    pub open spec fn first_elem(t: Tree, ks: Seq<usize>) -> Option<usize>
        decreases ks.len(),
    {
        if ks.len() == 0 {
            Option::None
        } else if 0 <= ks[0] < t.len() && t.val(ks[0] as int) is Element {
            Option::Some(ks[0])
        } else {
            Self::first_elem(t, ks.drop_first())
        }
    }

    /// Returns the root element: the first element child of the tree root.
    /// Calling it on a document without one is a contract violation.
    pub fn root_element(&self) -> (r: ElementRef)
        requires
            self.wf(),
            Self::first_elem(self.tree, self.tree.kids(0)) is Some,
        ensures
            Option::Some(r.id) == Self::first_elem(self.tree, self.tree.kids(0)),
            r.id < self.tree.len(),
            self.tree.val(r.id as int) is Element,
            r.lang@ == Seq::<char>::empty(),
    {
        let n = self.tree.childs[0].len();
        proof {
            assert(self.tree.kids(0).skip(0) =~= self.tree.kids(0));
        }
        for k in 0..n
            invariant
                self.wf(),
                n == self.tree.kids(0).len(),
                Self::first_elem(self.tree, self.tree.kids(0)) == Self::first_elem(
                    self.tree,
                    self.tree.kids(0).skip(k as int),
                ),
                Self::first_elem(self.tree, self.tree.kids(0)) is Some,
        {
            let c = self.tree.childs[0][k];
            proof {
                assert(self.tree.wf_at(0));
                assert(self.tree.kids(0).skip(k as int)[0] == self.tree.kids(0)[k as int]);
            }
            let is_el = match &self.tree.vals[c] {
                Node::Element(_) => true,
                _ => false,
            };
            if is_el {
                return ElementRef { id: c, lang: String::new() };
            }
            proof {
                assert(self.tree.kids(0).skip(k as int).drop_first() =~= self.tree.kids(0).skip(
                    k + 1,
                ));
            }
        }
        proof {
            assert(self.tree.kids(0).skip(n as int).len() == 0);
            assert(false);
        }
        unreached()
    }

    /// The first reachable element named `nm`, in document order.
    pub open spec fn first_named(t: Tree, ks: Seq<usize>, nm: Seq<char>) -> Option<usize>
        decreases ks.len(),
    {
        if ks.len() == 0 {
            Option::None
        } else if 0 <= ks[0] < t.len() && (t.val(ks[0] as int) matches Node::Element(ed)
            && ed.name@ == nm) {
            Option::Some(ks[0])
        } else {
            Self::first_named(t, ks.drop_first(), nm)
        }
    }

    /// The language of the document: the explicit value when set, else the
    /// `lang` attribute of the first `html` element, else empty.
    pub open spec fn lang_spec(self) -> Seq<char> {
        if self.lang@.len() > 0 {
            self.lang@
        } else {
            match Self::first_named(self.tree, self.tree.subtree(0).drop_first(), "html"@) {
                Option::Some(i) => match self.tree.val(i as int) {
                    Node::Element(ed) => match ed.attr_spec("lang"@) {
                        Option::Some(v) => v,
                        Option::None => Seq::empty(),
                    },
                    _ => Seq::empty(),
                },
                Option::None => Seq::empty(),
            }
        }
    }

    /// Returns the document language, deriving it lazily from the root
    /// `html` element's `lang` attribute when no explicit value is set.
    pub fn get_lang(&self) -> (r: String)
        requires
            self.wf(),
        ensures
            r@ == self.lang_spec(),
    {
        if !self.lang.as_str().is_empty() {
            return self.lang.clone();
        }
        let order = self.tree.subtree_vec(0);
        proof {
            lemma_subtree_desc(self.tree, 0);
        }
        let n = order.len();
        let ghost cand = self.tree.subtree(0).drop_first();
        proof {
            assert(cand.skip(0) =~= cand);
        }
        for k in 1..n
            invariant
                self.wf(),
                self.lang@.len() == 0,
                n == order@.len(),
                n >= 1,
                order@ == self.tree.subtree(0),
                cand == order@.drop_first(),
                forall|j: int| 0 <= j < order@.len() ==> #[trigger] order@[j] < self.tree.len(),
                Self::first_named(self.tree, cand, "html"@) == Self::first_named(
                    self.tree,
                    cand.skip(k - 1),
                    "html"@,
                ),
        {
            let id = order[k];
            proof {
                assert(cand.skip(k - 1)[0] == cand[k - 1]);
                assert(cand[k - 1] == order@[k as int]);
            }
            match &self.tree.vals[id] {
                Node::Element(ed) => {
                    if str_eq(ed.name.as_str(), "html") {
                        match ed.attr("lang") {
                            Option::Some(v) => {
                                return v.to_owned();
                            },
                            Option::None => {
                                return String::new();
                            },
                        }
                    }
                },
                _ => {},
            }
            proof {
                assert(cand.skip(k - 1).drop_first() =~= cand.skip(k as int));
            }
        }
        proof {
            assert(cand.skip(n - 1).len() == 0);
        }
        String::new()
    }

    /// Serializes the whole document, then normalizes the output encoding.
    pub fn html(&self) -> (r: String)
        requires
            self.wf(),
        ensures
            r@ == auto_decoded(self.tree.ser_node(0)),
    {
        let mut out: Vec<char> = Vec::new();
        ser_node_exec(&self.tree, 0, &mut out);
        encode_normalize(&out)
    }

    /// Detaches the node `id` and its whole subtree from the document.  A
    /// handle that is out of range or already detached is a no-op.
    pub fn remove_node(&mut self, id: usize)
        requires
            old(self).wf(),
        ensures
            final(self).wf(),
            final(self).same_meta(*old(self)),
            if id < old(self).tree.len() && old(self).tree.parent_of(id as int) is Some {
                let t0 = old(self).tree;
                let t1 = final(self).tree;
                &&& t1.len() == t0.len()
                &&& forall|i: int| 0 <= i < t0.len() ==> t1.val(i) == t0.val(i)
                &&& t1.parent_of(id as int) is None
                &&& forall|i: int| 0 <= i < t0.len() && i != id ==> t1.parent_of(i)
                    == t0.parent_of(i)
                &&& ({
                    let p = t0.parent_of(id as int)->Some_0 as int;
                    exists|j: int|
                        0 <= j < t0.kids(p).len() && t0.kids(p)[j] == id && t1.kids(p) == t0.kids(
                            p,
                        ).remove(j)
                })
                &&& forall|i: int|
                    0 <= i < t0.len() && i != t0.parent_of(id as int)->Some_0 ==> t1.kids(i)
                        == t0.kids(i)
            } else {
                *final(self) == *old(self)
            },
    {
        if id < self.tree.vals.len() {
            let has_parent = match self.tree.parents[id] {
                Option::Some(_) => true,
                Option::None => false,
            };
            if has_parent {
                self.tree.detach(id);
            }
        }
    }
}

/// Root-element lookup is unaffected by leading non-element children of the
/// root, such as a doctype declaration or a comment.
pub proof fn lemma_first_elem_skips_leading(t: Tree, pre: Seq<usize>, rest: Seq<usize>)
    requires
        forall|i: int|
            0 <= i < pre.len() ==> !(0 <= #[trigger] pre[i] < t.len() && t.val(
                pre[i] as int,
            ) is Element),
    ensures
        Html::first_elem(t, pre + rest) == Html::first_elem(t, rest),
    decreases pre.len(),
{
    if pre.len() > 0 {
        assert((pre + rest)[0] == pre[0]);
        assert((pre + rest).drop_first() =~= pre.drop_first() + rest);
        lemma_first_elem_skips_leading(t, pre.drop_first(), rest);
    } else {
        assert(pre + rest =~= rest);
    }
}

/// After a node is removed, no document-wide selection yields the removed
/// node or any node of its former subtree.
pub proof fn lemma_removed_not_selected(d0: Html, d1: Html, id: int, sel: Selector, x: usize)
    requires
        d0.wf(),
        d1.wf(),
        0 < id < d0.tree.len(),
        d1.tree.len() == d0.tree.len(),
        d1.tree.parent_of(id) is None,
        forall|i: int| 0 <= i < d0.tree.len() && i != id ==> d1.tree.parent_of(i)
            == d0.tree.parent_of(i),
        d0.tree.subtree(id).contains(x),
    ensures
        !d1.doc_select_seq(sel).contains(x),
{
    lemma_subtree_desc(d0.tree, id);
    let j = choose|j: int|
        0 <= j < d0.tree.subtree(id).len() && d0.tree.subtree(id)[j] == x;
    assert(d0.tree.is_anc_or_self(id, x as int));
    lemma_detached_unreachable(d0.tree, d1.tree, id, x as int);
    if d1.doc_select_seq(sel).contains(x) {
        let cand = d1.tree.subtree(0).drop_first();
        lemma_subtree_desc(d1.tree, 0);
        lemma_matching_upto_sub(
            d1.tree,
            sel,
            cand,
            Option::None,
            d1.tree.subtree(0).len() - 1,
        );
        let jj = choose|jj: int|
            0 <= jj < d1.doc_select_seq(sel).len() && d1.doc_select_seq(sel)[jj] == x;
        assert(cand.contains(x));
        let w = choose|w: int| 0 <= w < cand.len() && cand[w] == x;
        assert(d1.tree.subtree(0)[w + 1] == x);
        assert(d1.tree.is_anc_or_self(0, x as int));
        assert(false);
    }
}

/// Iterator over elements matching a selector, in document order, from
/// either end.
#[derive(Debug)]
pub struct Select {
    /// The matching handles, in document order.
    pub ids: Vec<usize>,
    /// Position of the next element yielded from the front.
    pub front: usize,
    /// Position one past the next element yielded from the back.
    pub back: usize,
}

impl Select {
    /// The cursors stay inside the match list.
    pub open spec fn wf(self) -> bool {
        self.front <= self.back <= self.ids@.len()
    }

    /// The handles not yet yielded from either end.
    pub open spec fn remaining(self) -> Seq<usize> {
        self.ids@.subrange(self.front as int, self.back as int)
    }

    /// Yields the next match in document order.
    pub fn next(&mut self) -> (r: Option<ElementRef>)
        requires
            old(self).wf(),
        ensures
            final(self).wf(),
            final(self).ids == old(self).ids,
            final(self).back == old(self).back,
            old(self).front < old(self).back ==> (r matches Option::Some(e) && e.id == old(
                self,
            ).ids@[old(self).front as int] && e.lang@ == Seq::<char>::empty() && final(self).front
                == old(self).front + 1),
            old(self).front >= old(self).back ==> r is None && final(self).front == old(
                self,
            ).front,
    {
        if self.front < self.back {
            let id = self.ids[self.front];
            self.front = self.front + 1;
            Option::Some(ElementRef { id, lang: String::new() })
        } else {
            Option::None
        }
    }

    /// Yields the next match in reverse document order.
    pub fn next_back(&mut self) -> (r: Option<ElementRef>)
        requires
            old(self).wf(),
        ensures
            final(self).wf(),
            final(self).ids == old(self).ids,
            final(self).front == old(self).front,
            old(self).front < old(self).back ==> (r matches Option::Some(e) && e.id == old(
                self,
            ).ids@[old(self).back - 1] && e.lang@ == Seq::<char>::empty() && final(self).back
                == old(self).back - 1),
            old(self).front >= old(self).back ==> r is None && final(self).back == old(self).back,
    {
        if self.front < self.back {
            let id = self.ids[self.back - 1];
            self.back = self.back - 1;
            Option::Some(ElementRef { id, lang: String::new() })
        } else {
            Option::None
        }
    }
}

/// Everything a forward walk of the iterator will yield, in order.
pub open spec fn drain_fwd(s: Select) -> Seq<usize>
    decreases s.back - s.front,
    when s.front <= s.back <= s.ids@.len()
{
    if s.front >= s.back {
        Seq::empty()
    } else {
        seq![s.ids@[s.front as int]] + drain_fwd(
            Select { ids: s.ids, front: (s.front + 1) as usize, back: s.back },
        )
    }
}

/// Everything a backward walk of the iterator will yield, in order.
pub open spec fn drain_bwd(s: Select) -> Seq<usize>
    decreases s.back - s.front,
    when s.front <= s.back <= s.ids@.len()
{
    if s.front >= s.back {
        Seq::empty()
    } else {
        seq![s.ids@[s.back - 1]] + drain_bwd(
            Select { ids: s.ids, front: s.front, back: (s.back - 1) as usize },
        )
    }
}

/// A forward walk yields exactly the remaining window.
pub proof fn lemma_forward_drain(s: Select)
    requires
        s.wf(),
    ensures
        drain_fwd(s) == s.remaining(),
    decreases s.back - s.front,
{
    if s.front < s.back {
        let s2 = Select { ids: s.ids, front: (s.front + 1) as usize, back: s.back };
        lemma_forward_drain(s2);
        assert(drain_fwd(s) =~= s.remaining());
    } else {
        assert(drain_fwd(s) =~= s.remaining());
    }
}

/// A backward walk yields exactly the reverse of the remaining window.
pub proof fn lemma_backward_drain(s: Select)
    requires
        s.wf(),
    ensures
        drain_bwd(s) == s.remaining().reverse(),
    decreases s.back - s.front,
{
    if s.front < s.back {
        let s2 = Select { ids: s.ids, front: s.front, back: (s.back - 1) as usize };
        lemma_backward_drain(s2);
        assert(drain_bwd(s) =~= s.remaining().reverse());
    } else {
        assert(drain_bwd(s) =~= s.remaining().reverse());
    }
}

/// Reverse iteration is the exact reverse of forward iteration: walking the
/// same fresh iterator from the back yields the forward results reversed.
pub proof fn lemma_reverse_iteration(s: Select)
    requires
        s.wf(),
    ensures
        drain_bwd(s) == drain_fwd(s).reverse(),
{
    lemma_forward_drain(s);
    lemma_backward_drain(s);
}

} // verus!
