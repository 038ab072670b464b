//! Element references: lightweight handles guaranteed to point at an
//! element node, with scoped selection, attribute lookup, filtered text
//! extraction and re-serialization.

use vstd::prelude::*;
use crate::html::Html;
use crate::node::{ElementData, Node};
use crate::selector::{matching_upto, matches_node, Selector};
use crate::selector::lemma_matching_upto_sub;
use crate::ser::{auto_decoded, encode_normalize, is_raw_exec, ser_kids_exec, ser_node_exec};
use crate::tree::{lemma_subtree_desc, lemma_subtree_upto_desc, Tree};

verus! {

/// A handle wrapping a tree node known to be an element, with a per-element
/// language slot that stays empty for now.
#[derive(Debug)]
pub struct ElementRef {
    /// The element's handle in the arena.
    pub id: usize,
    /// The language of the element.  Kept empty; reserved for per-element
    /// language tracking.
    pub lang: String,
}

/// The handles a scoped selection of `e`'s strict descendants yields, in
/// document order, matching with `e` as the scope root.
pub open spec fn scoped_select_seq(t: Tree, sel: Selector, e: usize) -> Seq<usize> {
    matching_upto(
        t,
        sel,
        t.subtree(e as int).drop_first(),
        Option::Some(e),
        t.subtree(e as int).len() - 1,
    )
}

/// The text runs of the first `k` handles of `order`: one entry per text
/// node whose immediate parent is not a raw-text (`script`/`style`) element.
pub open spec fn texts_upto(t: Tree, order: Seq<usize>, k: int) -> Seq<Seq<char>>
    decreases k,
{
    if k <= 0 {
        Seq::empty()
    } else {
        texts_upto(t, order, k - 1) + (if 0 <= order[k - 1] < t.len() && t.val(
            order[k - 1] as int,
        ) is Text && !t.text_parent_raw(order[k - 1] as int) {
            seq![t.val(order[k - 1] as int).text_spec()]
        } else {
            Seq::<Seq<char>>::empty()
        })
    }
}

/// The filtered text runs of the whole subtree of `e`, in document order.
pub open spec fn text_seq(t: Tree, e: usize) -> Seq<Seq<char>> {
    texts_upto(t, t.subtree(e as int), t.subtree(e as int).len() as int)
}

impl ElementRef {
    /// Wraps a node handle only if it references an element; never panics.
    pub fn wrap(doc: &Html, id: usize) -> (r: Option<ElementRef>)
        requires
            doc.wf(),
            id < doc.tree.len(),
        ensures
            match r {
                Option::Some(e) => doc.tree.val(id as int) is Element && e.id == id && e.lang@
                    == Seq::<char>::empty(),
                Option::None => !(doc.tree.val(id as int) is Element),
            },
    {
        match &doc.tree.vals[id] {
            Node::Element(_) => Option::Some(ElementRef { id, lang: String::new() }),
            _ => Option::None,
        }
    }

    /// Returns the element data this handle references.
    pub fn value<'a>(&self, doc: &'a Html) -> (r: &'a ElementData)
        requires
            doc.wf(),
            self.id < doc.tree.len(),
            doc.tree.val(self.id as int) is Element,
        ensures
            doc.tree.val(self.id as int) == Node::Element(*r),
    {
        match &doc.tree.vals[self.id] {
            Node::Element(ed) => ed,
            _ => unreached(),
        }
    }

    /// Returns the value of an attribute of this element.
    pub fn attr<'a>(&self, doc: &'a Html, name: &str) -> (r: Option<&'a str>)
        requires
            doc.wf(),
            self.id < doc.tree.len(),
            doc.tree.val(self.id as int) is Element,
        ensures
            ({
                let ed = doc.tree.val(self.id as int)->Element_0;
                match r {
                    Option::Some(v) => ed.attr_spec(name@) == Option::Some(v@),
                    Option::None => ed.attr_spec(name@) is None,
                }
            }),
    {
        self.value(doc).attr(name)
    }

    /// Returns an iterator over descendant elements matching a selector,
    /// evaluated with this element as the `:scope` anchor.
    pub fn select(&self, doc: &Html, selector: &Selector) -> (s: Select)
        requires
            doc.wf(),
            selector.wf(),
            self.id < doc.tree.len(),
        ensures
            s.ids@ == scoped_select_seq(doc.tree, *selector, self.id),
            s.pos == 0,
    {
        let order = doc.tree.subtree_vec(self.id);
        proof {
            lemma_subtree_desc(doc.tree, self.id as int);
        }
        let mut ids: Vec<usize> = Vec::new();
        let n = order.len();
        let ghost cand = doc.tree.subtree(self.id as int).drop_first();
        for k in 1..n
            invariant
                doc.wf(),
                selector.wf(),
                self.id < doc.tree.len(),
                n == order@.len(),
                n >= 1,
                order@ == doc.tree.subtree(self.id as int),
                cand == order@.drop_first(),
                forall|j: int| 0 <= j < order@.len() ==> #[trigger] order@[j] < doc.tree.len(),
                ids@ == matching_upto(
                    doc.tree,
                    *selector,
                    cand,
                    Option::Some(self.id),
                    k - 1,
                ),
        {
            let id = order[k];
            if matches_node(&doc.tree, selector, id, Option::Some(self.id)) {
                ids.push(id);
            }
            proof {
                assert(cand[k - 1] == order@[k as int]);
                assert(ids@ =~= matching_upto(
                    doc.tree,
                    *selector,
                    cand,
                    Option::Some(self.id),
                    k as int,
                ));
            }
        }
        Select { ids, pos: 0 }
    }

    /// Returns an iterator over the text runs of this element's subtree,
    /// skipping text whose immediate parent is a `script` or `style`
    /// element.
    pub fn text(&self, doc: &Html) -> (r: Text)
        requires
            doc.wf(),
            self.id < doc.tree.len(),
        ensures
            r.items@.map_values(|s: String| s@) == text_seq(doc.tree, self.id),
            r.pos == 0,
    {
        let order = doc.tree.subtree_vec(self.id);
        proof {
            lemma_subtree_desc(doc.tree, self.id as int);
        }
        let mut items: Vec<String> = Vec::new();
        let n = order.len();
        for k in 0..n
            invariant
                doc.wf(),
                self.id < doc.tree.len(),
                n == order@.len(),
                order@ == doc.tree.subtree(self.id as int),
                forall|j: int| 0 <= j < order@.len() ==> #[trigger] order@[j] < doc.tree.len(),
                items@.map_values(|s: String| s@) == texts_upto(doc.tree, order@, k as int),
        {
            let id = order[k];
            let ghost pre = items@;
            match &doc.tree.vals[id] {
                Node::Text { text } => {
                    proof {
                        assert(doc.tree.wf_at(id as int));
                    }
                    let keep = match &doc.tree.parents[id] {
                        Option::Some(p) => match &doc.tree.vals[*p] {
                            Node::Element(ed) => !is_raw_exec(ed.name.as_str()),
                            _ => true,
                        },
                        Option::None => true,
                    };
                    proof {
                        assert(keep == !doc.tree.text_parent_raw(id as int));
                    }
                    if keep {
                        items.push(text.clone());
                    }
                },
                _ => {},
            }
            proof {
                assert(items@.map_values(|s: String| s@) =~= texts_upto(
                    doc.tree,
                    order@,
                    k + 1,
                ));
            }
        }
        Text { items, pos: 0 }
    }

    /// Serializes this element, its own tags included, and normalizes the
    /// output encoding.
    pub fn html(&self, doc: &Html) -> (r: String)
        requires
            doc.wf(),
            self.id < doc.tree.len(),
        ensures
            r@ == auto_decoded(doc.tree.ser_node(self.id as int)),
    {
        let mut out: Vec<char> = Vec::new();
        ser_node_exec(&doc.tree, self.id, &mut out);
        encode_normalize(&out)
    }

    /// Serializes only this element's children and normalizes the output
    /// encoding.
    pub fn inner_html(&self, doc: &Html) -> (r: String)
        requires
            doc.wf(),
            self.id < doc.tree.len(),
        ensures
            r@ == auto_decoded(
                doc.tree.ser_kids(self.id as int, doc.tree.kids(self.id as int).len() as int),
            ),
    {
        let mut out: Vec<char> = Vec::new();
        ser_kids_exec(&doc.tree, self.id, &mut out);
        encode_normalize(&out)
    }
}

/// Everything a scoped selection yields lies strictly below the scope
/// element: never a sibling elsewhere in the document.
pub proof fn lemma_scoped_select_in_scope(t: Tree, sel: Selector, e: usize, j: int)
    requires
        t.wf(),
        e < t.len(),
        0 <= j < scoped_select_seq(t, sel, e).len(),
    ensures
        t.is_ancestor(e as int, scoped_select_seq(t, sel, e)[j] as int),
{
    let cand = t.subtree(e as int).drop_first();
    lemma_matching_upto_sub(t, sel, cand, Option::Some(e), t.subtree(e as int).len() - 1);
    let x = scoped_select_seq(t, sel, e)[j];
    assert(cand.contains(x));
    let w = choose|w: int| 0 <= w < cand.len() && cand[w] == x;
    assert(cand =~= t.subtree_upto(e as int, t.kids(e as int).len() as int));
    lemma_subtree_upto_desc(t, e as int, t.kids(e as int).len() as int);
}

/// Text extraction excludes raw-text content: wherever every text node among
/// the candidates sits directly under a `script` or `style` element, nothing
/// is extracted at all.
pub proof fn lemma_text_excludes_raw(t: Tree, order: Seq<usize>, k: int)
    requires
        0 <= k <= order.len(),
        forall|i: int|
            0 <= i < order.len() && t.val(#[trigger] order[i] as int) is Text
                ==> t.text_parent_raw(order[i] as int),
    ensures
        texts_upto(t, order, k).len() == 0,
    decreases k,
{
    if k > 0 {
        lemma_text_excludes_raw(t, order, k - 1);
    }
}

/// Iterator over descendant elements matching a scoped selector.
#[derive(Debug)]
pub struct Select {
    /// The matching handles, in document order.
    pub ids: Vec<usize>,
    /// Position of the next element yielded.
    pub pos: usize,
}

impl Select {
    /// The cursor stays inside the match list.
    pub open spec fn wf(self) -> bool {
        self.pos <= self.ids@.len()
    }

    /// Yields the next match in document order.
    pub fn next(&mut self) -> (r: Option<ElementRef>)
        requires
            old(self).wf(),
        ensures
            final(self).wf(),
            final(self).ids == old(self).ids,
            old(self).pos < old(self).ids@.len() ==> (r matches Option::Some(e) && e.id == old(
                self,
            ).ids@[old(self).pos as int] && e.lang@ == Seq::<char>::empty() && final(self).pos
                == old(self).pos + 1),
            old(self).pos >= old(self).ids@.len() ==> r is None && final(self).pos == old(
                self,
            ).pos,
    {
        if self.pos < self.ids.len() {
            let id = self.ids[self.pos];
            self.pos = self.pos + 1;
            Option::Some(ElementRef { id, lang: String::new() })
        } else {
            Option::None
        }
    }
}

/// Iterator over the kept text runs of an element's subtree.
#[derive(Debug)]
pub struct Text {
    /// The text runs, in document order.
    pub items: Vec<String>,
    /// Position of the next run yielded.
    pub pos: usize,
}

impl Text {
    /// The cursor stays inside the run list.
    pub open spec fn wf(self) -> bool {
        self.pos <= self.items@.len()
    }

    /// Yields the next text run in document order.
    pub fn next(&mut self) -> (r: Option<String>)
        requires
            old(self).wf(),
        ensures
            final(self).wf(),
            final(self).items == old(self).items,
            old(self).pos < old(self).items@.len() ==> (r matches Option::Some(s) && s == old(
                self,
            ).items@[old(self).pos as int] && final(self).pos == old(self).pos + 1),
            old(self).pos >= old(self).items@.len() ==> r is None && final(self).pos == old(
                self,
            ).pos,
    {
        if self.pos < self.items.len() {
            let s = self.items[self.pos].clone();
            self.pos = self.pos + 1;
            Option::Some(s)
        } else {
            Option::None
        }
    }
}

} // verus!
